use vstd::prelude::*;
use crate::coord::{
    Coord, coord_in_range, cross, cross_val, lex_le, lex_less, lex_lt, negate,
    lemma_backward_cover, lemma_cross_decompose, lemma_cross_negate, lemma_cross_self,
    lemma_cross_swap, lemma_cross_swap01, lemma_extend_left_turn, lemma_lex_negate,
    lemma_junction_strict, lemma_line_collinear, lemma_negate_involutive, lemma_pop_cover, lemma_pop_cover_vertical,
    lemma_same_x_above,
};
use crate::geo_enums::BuildError;

verus! {

/// The sequence is sorted lexicographically (duplicates allowed).
pub open spec fn sorted_lex(s: Seq<Coord>) -> bool {
    forall|i: int, j: int| 0 <= i < j < s.len() ==> lex_le(#[trigger] s[i], #[trigger] s[j])
}

/// The sequence is strictly sorted lexicographically: sorted and free
/// of duplicates.
pub open spec fn strictly_sorted_lex(s: Seq<Coord>) -> bool {
    forall|i: int, j: int| 0 <= i < j < s.len() ==> lex_lt(#[trigger] s[i], #[trigger] s[j])
}

/// Every three consecutive points of the sequence make a strict left
/// (counter-clockwise) turn.
pub open spec fn left_turns(s: Seq<Coord>) -> bool {
    forall|i: int| 0 <= i && i + 2 < s.len() ==> #[trigger] cross(s[i], s[i + 1], s[i + 2]) > 0
}

/// Every point of `pts` lies on or left of every directed edge of the
/// polyline `ch`.
pub open spec fn chain_covers(ch: Seq<Coord>, pts: Seq<Coord>) -> bool {
    forall|e: int, j: int|
        0 <= e && e + 1 < ch.len() && 0 <= j < pts.len()
            ==> #[trigger] cross(ch[e], ch[e + 1], pts[j]) >= 0
}

/// Sorts the points lexicographically in place. The result holds
/// exactly the values the input held.
pub fn sort_points(v: &mut Vec<Coord>)
    ensures
        final(v)@.len() == old(v)@.len(),
        sorted_lex(final(v)@),
        forall|x: Coord| final(v)@.contains(x) <==> old(v)@.contains(x),
{
    if v.len() <= 1 {
        return;
    }
    let mut i: usize = 1;
    while i < v.len()
        invariant
            1 <= i <= v@.len(),
            v@.len() == old(v)@.len(),
            forall|a: int, b: int|
                0 <= a < b < i as int ==> lex_le(#[trigger] v@[a], #[trigger] v@[b]),
            forall|x: Coord| v@.contains(x) <==> old(v)@.contains(x),
        decreases v@.len() - i,
    {
        let mut j: usize = i;
        while j > 0 && lex_less(&v[j], &v[j - 1])
            invariant
                0 <= j <= i < v@.len(),
                v@.len() == old(v)@.len(),
                forall|x: Coord| v@.contains(x) <==> old(v)@.contains(x),
                forall|a: int, b: int|
                    0 <= a < b <= i as int && a != j as int && b != j as int
                        ==> lex_le(#[trigger] v@[a], #[trigger] v@[b]),
                forall|b: int| j < b <= i as int ==> lex_le(v@[j as int], #[trigger] v@[b]),
            decreases j,
        {
            let ghost pre = v@;
            let small = v[j];
            let big = v[j - 1];
            v.set(j, big);
            v.set(j - 1, small);
            proof {
                lemma_two_update_contains(pre, j as int, j as int - 1);
                assert(v@ == pre.update(j as int, pre[j as int - 1]).update(
                    j as int - 1, pre[j as int]));
            }
            j = j - 1;
        }
        proof {
            assert forall|a: int, b: int| 0 <= a < b < i as int + 1 implies lex_le(
                v@[a], v@[b]) by {
                if b == j as int {
                    if a < j as int - 1 {
                        assert(lex_le(v@[a], v@[j as int - 1]));
                    }
                }
            };
        }
        i = i + 1;
    }
}

proof fn lemma_two_update_contains(s: Seq<Coord>, i: int, j: int)
    requires
        0 <= i < s.len(),
        0 <= j < s.len(),
    ensures
        forall|x: Coord|
            s.update(i, s[j]).update(j, s[i]).contains(x) <==> s.contains(x),
{
    let t = s.update(i, s[j]).update(j, s[i]);
    assert forall|x: Coord| t.contains(x) implies s.contains(x) by {
        let w = choose|w: int| 0 <= w < t.len() && t[w] == x;
        if w == j {
            assert(s[i] == x);
        } else if w == i {
            assert(s[j] == x);
        } else {
            assert(s[w] == x);
        }
    };
    assert forall|x: Coord| s.contains(x) implies t.contains(x) by {
        let w = choose|w: int| 0 <= w < s.len() && s[w] == x;
        if w == i {
            assert(t[j] == x);
        } else if w == j {
            assert(t[i] == x);
        } else {
            assert(t[w] == x);
        }
    };
}

/// Removes duplicates from a sorted sequence, keeping one copy of each
/// value, so the result is strictly sorted.
pub fn dedup_points(v: &Vec<Coord>) -> (r: Vec<Coord>)
    requires
        v@.len() >= 1,
        sorted_lex(v@),
    ensures
        r@.len() >= 1,
        strictly_sorted_lex(r@),
        forall|x: Coord| r@.contains(x) <==> v@.contains(x),
{
    let mut r: Vec<Coord> = Vec::new();
    r.push(v[0]);
    proof {
        assert(r@[0] == v@[0]);
        assert(r@.contains(v@[0]));
    }
    let mut i: usize = 1;
    while i < v.len()
        invariant
            1 <= i <= v@.len(),
            sorted_lex(v@),
            r@.len() >= 1,
            strictly_sorted_lex(r@),
            r@.last() == v@[i - 1],
            forall|x: Coord| r@.contains(x) ==> v@.contains(x),
            forall|k: int| 0 <= k < i ==> r@.contains(#[trigger] v@[k]),
        decreases v@.len() - i,
    {
        let ghost pre = r@;
        let last = r[r.len() - 1];
        let cur = v[i];
        if !(cur.x == last.x && cur.y == last.y) {
            r.push(cur);
            proof {
                assert(lex_le(v@[i - 1 as int], v@[i as int]));
                assert(lex_lt(pre.last(), cur));
                assert forall|a: int, b: int| 0 <= a < b < r@.len()
                    implies lex_lt(r@[a], r@[b]) by {
                    if b == r@.len() - 1 {
                        if a < pre.len() - 1 {
                            assert(lex_lt(pre[a], pre.last()));
                        }
                    }
                };
                assert forall|k: int| 0 <= k < i + 1 implies r@.contains(#[trigger] v@[k]) by {
                    if k < i {
                        let w = choose|w: int| 0 <= w < pre.len() && pre[w] == v@[k];
                        assert(r@[w] == v@[k]);
                    } else {
                        assert(r@[r@.len() - 1] == v@[k]);
                    }
                };
            }
        } else {
            proof {
                assert(cur == last);
                assert(r@.contains(v@[i as int])) by {
                    assert(r@[r@.len() - 1] == v@[i as int]);
                };
            }
        }
        i = i + 1;
    }
    proof {
        assert forall|x: Coord| v@.contains(x) implies r@.contains(x) by {
            let w = choose|w: int| 0 <= w < v@.len() && v@[w] == x;
        };
    }
    r
}

/// True when the working chain must drop its top point: the two
/// topmost points and the incoming one fail to make a strict left turn.
fn should_pop(ch: &Vec<Coord>, p: &Coord) -> (r: bool)
    requires
        forall|k: int| 0 <= k < ch@.len() ==> coord_in_range(#[trigger] ch@[k]),
        coord_in_range(*p),
    ensures
        r == (ch@.len() >= 2 && cross(ch@[ch@.len() - 2], ch@[ch@.len() - 1], *p) <= 0),
{
    if ch.len() < 2 {
        return false;
    }
    let c = cross_val(&ch[ch.len() - 2], &ch[ch.len() - 1], p);
    c <= 0
}

/// An edge of a left-turning chain keeps a strictly later point on or
/// to its left whenever the chain's last edge does.
proof fn lemma_chain_covers_new_point(ch: Seq<Coord>, p: Coord, e: int)
    requires
        strictly_sorted_lex(ch),
        left_turns(ch),
        ch.len() >= 2,
        lex_lt(ch[ch.len() - 1], p),
        cross(ch[ch.len() - 2], ch[ch.len() - 1], p) > 0,
        0 <= e && e + 1 < ch.len(),
    ensures
        cross(ch[e], ch[e + 1], p) >= 0,
    decreases ch.len() - e,
{
    if e + 2 == ch.len() {
        // This is the last edge; the hypothesis gives a strict left turn.
    } else {
        lemma_chain_covers_new_point(ch, p, e + 1);
        let a = ch[e];
        let b = ch[e + 1];
        let c = ch[e + 2];
        assert(cross(a, b, c) > 0);
        assert(lex_lt(a, b) && lex_lt(b, c));
        if a.x == b.x {
            let k = cross(a, b, c);
            assert(k <= 0) by (nonlinear_arith)
                requires
                    k == (b.x - a.x) * (c.y - a.y) - (b.y - a.y) * (c.x - a.x),
                    b.x == a.x,
                    b.y > a.y,
                    c.x >= a.x;
            assert(false);
        }
        if b.x == c.x {
            if e + 3 == ch.len() {
                let k = cross(b, c, p);
                assert(lex_lt(c, p));
                assert(k <= 0) by (nonlinear_arith)
                    requires
                        k == (c.x - b.x) * (p.y - b.y) - (c.y - b.y) * (p.x - b.x),
                        c.x == b.x,
                        c.y > b.y,
                        p.x >= b.x;
                assert(false);
            } else {
                let d = ch[e + 3];
                assert(cross(ch[e + 1], ch[e + 1 + 1], ch[e + 1 + 2]) > 0);
                assert(cross(b, c, d) > 0);
                assert(lex_lt(c, d));
                let k = cross(b, c, d);
                assert(k <= 0) by (nonlinear_arith)
                    requires
                        k == (c.x - b.x) * (d.y - b.y) - (c.y - b.y) * (d.x - b.x),
                        c.x == b.x,
                        c.y > b.y,
                        d.x >= b.x;
                assert(false);
            }
        }
        assert(lex_le(b, ch[ch.len() - 1]));
        assert(p.x >= b.x);
        lemma_backward_cover(a, b, c, p);
    }
}

/// Builds the lower half of the convex hull of a strictly sorted point
/// sequence by the monotone-chain sweep: each point is pushed after
/// popping every top that fails to keep the chain turning strictly
/// left. The result starts and ends at the extreme points, turns
/// strictly left throughout, uses only input points, and keeps every
/// input point on or to the left of each of its directed edges.
pub fn half_hull(pts: &Vec<Coord>) -> (ch: Vec<Coord>)
    requires
        pts@.len() >= 1,
        strictly_sorted_lex(pts@),
        forall|i: int| 0 <= i < pts@.len() ==> coord_in_range(#[trigger] pts@[i]),
    ensures
        1 <= ch@.len() <= pts@.len(),
        ch@[0] == pts@[0],
        ch@.last() == pts@.last(),
        strictly_sorted_lex(ch@),
        left_turns(ch@),
        forall|k: int| 0 <= k < ch@.len() ==> pts@.contains(#[trigger] ch@[k]),
        forall|k: int| 0 <= k < ch@.len() ==> coord_in_range(#[trigger] ch@[k]),
        chain_covers(ch@, pts@),
{
    let mut ch: Vec<Coord> = Vec::new();
    ch.push(pts[0]);
    proof {
        assert(ch@[0] == pts@[0]);
        assert(pts@.contains(ch@[0]));
    }
    let mut i: usize = 1;
    while i < pts.len()
        invariant
            1 <= i <= pts@.len(),
            strictly_sorted_lex(pts@),
            forall|k: int| 0 <= k < pts@.len() ==> coord_in_range(#[trigger] pts@[k]),
            1 <= ch@.len() <= i,
            ch@[0] == pts@[0],
            ch@.last() == pts@[i - 1],
            strictly_sorted_lex(ch@),
            left_turns(ch@),
            forall|k: int| 0 <= k < ch@.len() ==> pts@.contains(#[trigger] ch@[k]),
            forall|k: int| 0 <= k < ch@.len() ==> coord_in_range(#[trigger] ch@[k]),
            forall|e: int, j: int|
                0 <= e && e + 1 < ch@.len() && 0 <= j < i
                    ==> #[trigger] cross(ch@[e], ch@[e + 1], pts@[j]) >= 0,
        decreases pts@.len() - i,
    {
        let p = pts[i];
        let ghost mut popped: bool = false;
        while should_pop(&ch, &p)
            invariant
                1 <= i < pts@.len(),
                p == pts@[i as int],
                strictly_sorted_lex(pts@),
                forall|k: int| 0 <= k < pts@.len() ==> coord_in_range(#[trigger] pts@[k]),
                1 <= ch@.len() <= i,
                ch@[0] == pts@[0],
                lex_le(ch@.last(), pts@[i - 1]),
                strictly_sorted_lex(ch@),
                left_turns(ch@),
                forall|k: int| 0 <= k < ch@.len() ==> pts@.contains(#[trigger] ch@[k]),
                forall|k: int| 0 <= k < ch@.len() ==> coord_in_range(#[trigger] ch@[k]),
                forall|e: int, j: int|
                    0 <= e && e + 1 < ch@.len() && 0 <= j < i
                        ==> #[trigger] cross(ch@[e], ch@[e + 1], pts@[j]) >= 0,
                popped ==> forall|j: int|
                    0 <= j < i && pts@[j].x >= ch@.last().x
                        ==> cross(ch@.last(), p, #[trigger] pts@[j]) >= 0,
                !popped ==> ch@.last() == pts@[i - 1],
            decreases ch@.len(),
        {
            let ghost pre = ch@;
            let ghost t = pre[pre.len() - 2];
            let ghost w = pre[pre.len() - 1];
            let ghost was_popped = popped;
            let _ = ch.pop();
            proof {
                assert(ch@ == pre.subrange(0, pre.len() - 1));
                assert forall|k: int| 0 <= k < ch@.len() implies ch@[k] == pre[k] by {}
                assert(ch@.last() == t);
                assert(cross(t, w, p) <= 0);
                assert(lex_lt(t, w));
                assert(lex_lt(w, p)) by {
                    assert(lex_le(w, pts@[i - 1]));
                    assert(lex_lt(pts@[i - 1], pts@[i as int]));
                }
                assert forall|j: int| 0 <= j < i && pts@[j].x >= t.x
                    implies cross(t, p, #[trigger] pts@[j]) >= 0 by {
                    let q = pts@[j];
                    assert(lex_le(q, pts@[i - 1]));
                    assert(cross(t, w, q) >= 0) by {
                        assert(cross(pre[pre.len() - 2], pre[pre.len() - 2 + 1], pts@[j]) >= 0);
                    }
                    if q.x >= w.x {
                        if was_popped {
                            assert(cross(w, p, q) >= 0);
                            lemma_cross_decompose(t, w, p, q);
                        } else {
                            assert(w == pts@[i - 1]);
                            assert(lex_le(q, w));
                            assert(q.x == w.x);
                            if t.x < w.x {
                                lemma_same_x_above(t, w, q);
                                assert(q == w);
                                lemma_cross_swap(t, p, w);
                            } else {
                                assert(t.x == w.x && t.y < w.y);
                                assert(q.x == t.x);
                                if pre.len() == 2 {
                                    assert(t == pts@[0]);
                                    assert(lex_le(pts@[0], q));
                                    assert(q.y >= t.y);
                                } else {
                                    let t2 = pre[pre.len() - 3];
                                    assert(cross(pre[pre.len() - 3], pre[pre.len() - 3 + 1],
                                        pre[pre.len() - 3 + 2]) > 0);
                                    assert(cross(t2, t, w) > 0);
                                    assert(lex_lt(t2, t));
                                    if t2.x == t.x {
                                        let k = cross(t2, t, w);
                                        assert(k <= 0) by (nonlinear_arith)
                                            requires
                                                k == (t.x - t2.x) * (w.y - t2.y)
                                                    - (t.y - t2.y) * (w.x - t2.x),
                                                t.x == t2.x,
                                                t.y > t2.y,
                                                w.x >= t2.x;
                                        assert(false);
                                    }
                                    assert(cross(t2, t, q) >= 0) by {
                                        assert(cross(pre[pre.len() - 3], pre[pre.len() - 3 + 1],
                                            pts@[j]) >= 0);
                                    }
                                    lemma_same_x_above(t2, t, q);
                                }
                                assert(p.x >= t.x);
                                lemma_pop_cover_vertical(t, w, p, q);
                            }
                        }
                    } else {
                        assert(t.x <= q.x < w.x);
                        assert(p.x >= w.x);
                        lemma_pop_cover(t, w, p, q);
                    }
                }
                popped = true;
            }
        }
        proof {
            let t = ch@.last();
            assert(lex_lt(t, p)) by {
                assert(lex_le(ch@.last(), pts@[i - 1]));
                assert(lex_lt(pts@[i - 1], pts@[i as int]));
            }
            // Every already-processed point is on or left of the new edge.
            assert forall|j: int| 0 <= j < i
                implies cross(t, p, #[trigger] pts@[j]) >= 0 by {
                let q = pts@[j];
                assert(lex_le(q, pts@[i - 1]));
                if ch@.len() >= 2 {
                    let u = ch@[ch@.len() - 2];
                    assert(cross(u, t, p) > 0);
                    if q.x <= t.x {
                        assert(lex_lt(u, t));
                        assert(cross(u, t, q) >= 0) by {
                            assert(cross(ch@[ch@.len() - 2], ch@[ch@.len() - 2 + 1],
                                pts@[j]) >= 0);
                        }
                        lemma_extend_left_turn(u, t, p, q);
                    } else {
                        if popped {
                            assert(cross(ch@.last(), p, pts@[j]) >= 0);
                        } else {
                            assert(t == pts@[i - 1]);
                            assert(lex_le(q, t));
                            assert(false);
                        }
                    }
                } else {
                    assert(t == pts@[0]);
                    if popped {
                        assert(lex_le(pts@[0], q));
                        assert(q.x >= t.x);
                        assert(cross(ch@.last(), p, pts@[j]) >= 0);
                    } else {
                        assert(t == pts@[i - 1]);
                        assert(i == 1);
                        assert(q == t);
                        lemma_cross_self(t, p);
                    }
                }
            }
            // The new point is on or left of every surviving edge.
            if ch@.len() >= 2 {
                assert forall|e: int| 0 <= e && e + 1 < ch@.len()
                    implies cross(ch@[e], #[trigger] ch@[e + 1], p) >= 0 by {
                    assert(lex_lt(ch@[ch@.len() - 1], p));
                    lemma_chain_covers_new_point(ch@, p, e);
                }
            }
        }
        let ghost pre = ch@;
        ch.push(p);
        i = i + 1;
        proof {
            assert(ch@ == pre.push(p));
            assert(ch@.last() == pts@[i - 1]);
            assert forall|a: int, b: int| 0 <= a < b < ch@.len()
                implies lex_lt(#[trigger] ch@[a], #[trigger] ch@[b]) by {
                if b == ch@.len() - 1 {
                    assert(lex_le(pre.last(), pts@[i - 2]));
                    assert(lex_lt(pts@[i - 2], p));
                    if a < pre.len() - 1 {
                        assert(lex_lt(pre[a], pre.last()));
                    }
                }
            }
            assert forall|k: int| 0 <= k && k + 2 < ch@.len()
                implies #[trigger] cross(ch@[k], ch@[k + 1], ch@[k + 2]) > 0 by {
                if k + 3 == ch@.len() {
                    assert(cross(pre[pre.len() - 2], pre[pre.len() - 1], p) > 0);
                }
            }
            assert(pts@.contains(p)) by {
                assert(pts@[i - 1] == p);
            }
            assert forall|e: int, j: int|
                0 <= e && e + 1 < ch@.len() && 0 <= j < i
                implies #[trigger] cross(ch@[e], ch@[e + 1], pts@[j]) >= 0 by {
                if e + 2 == ch@.len() {
                    if j == i - 1 {
                        lemma_cross_self(pre.last(), p);
                    } else {
                        assert(cross(pre.last(), p, pts@[j]) >= 0);
                    }
                } else {
                    if j == i - 1 {
                        assert(cross(pre[e], pre[e + 1], p) >= 0);
                    } else {
                        assert(cross(pre[e], pre[e + 1], pts@[j]) >= 0);
                    }
                }
            }
        }
    }
    proof {
        assert(ch@.last() == pts@[pts@.len() - 1]);
    }
    ch
}

/// A closed ring: at least two entries, the first repeated at the end.
pub open spec fn is_closed_ring(r: Seq<Coord>) -> bool {
    r.len() >= 2 && r[0] == r[r.len() - 1]
}

/// The point q lies on or left of every directed edge of the ring,
/// which for a counter-clockwise convex ring means on its boundary or
/// in its interior.
pub open spec fn on_or_inside(ring: Seq<Coord>, q: Coord) -> bool {
    forall|e: int| 0 <= e && e + 1 < ring.len() ==> #[trigger] cross(ring[e], ring[e + 1], q) >= 0
}

/// Around the closed ring, consecutive edges never turn clockwise.
pub open spec fn ring_turns(r: Seq<Coord>) -> bool {
    &&& forall|k: int| 0 <= k && k + 2 < r.len() ==> #[trigger] cross(r[k], r[k + 1], r[k + 2]) >= 0
    &&& (r.len() >= 3 ==> cross(r[r.len() - 2], r[0], r[1]) >= 0)
}

/// A strictly convex closed counter-clockwise ring: every turn around
/// the ring, the wrap-around turn included, is a strict left turn.
pub open spec fn is_convex_ccw_ring(r: Seq<Coord>) -> bool {
    &&& is_closed_ring(r)
    &&& r.len() >= 4
    &&& forall|k: int| 0 <= k && k + 2 < r.len() ==> #[trigger] cross(r[k], r[k + 1], r[k + 2]) > 0
    &&& cross(r[r.len() - 2], r[0], r[1]) > 0
}

/// Every three points of the sequence are collinear: the point set
/// spans at most a line.
pub open spec fn all_collinear(s: Seq<Coord>) -> bool {
    forall|i: int, j: int, k: int|
        0 <= i < s.len() && 0 <= j < s.len() && 0 <= k < s.len()
            ==> #[trigger] cross(s[i], s[j], s[k]) == 0
}

/// Computes the convex hull of the given points as a closed ring,
/// ordered counter-clockwise and starting at the lexicographically
/// smallest hull vertex, by the monotone-chain algorithm: the points
/// are sorted, deduplicated, and swept into a lower and an upper
/// chain, which are joined into the ring.
///
/// Every ring vertex is one of the input points, every input point
/// lies on or inside the ring, and the ring never turns clockwise.
/// When the input spans a proper area the ring is strictly convex;
/// when all input points are collinear the ring degenerates to a
/// zero-area ring of at most three entries, which is returned as is,
/// or rejected as `DegenerateInput` when `reject_degenerate` is set.
pub fn hull_ring(points: &Vec<Coord>, reject_degenerate: bool) -> (r: Result<Vec<Coord>, BuildError>)
    requires
        points@.len() >= 3,
        forall|i: int| 0 <= i < points@.len() ==> coord_in_range(#[trigger] points@[i]),
    ensures
        (r is Err) <==> (reject_degenerate && all_collinear(points@)),
        r is Err ==> r == Err::<Vec<Coord>, BuildError>(BuildError::DegenerateInput),
        r matches Ok(ring) ==> {
            &&& is_closed_ring(ring@)
            &&& forall|k: int| 0 <= k < ring@.len() ==> points@.contains(#[trigger] ring@[k])
            &&& forall|j: int| 0 <= j < points@.len() ==> on_or_inside(ring@, #[trigger] points@[j])
            &&& ring_turns(ring@)
            &&& (all_collinear(points@) <==> ring@.len() <= 3)
            &&& (!all_collinear(points@) ==> is_convex_ccw_ring(ring@))
        },
{
    let mut s: Vec<Coord> = Vec::new();
    let mut idx: usize = 0;
    while idx < points.len()
        invariant
            0 <= idx <= points@.len(),
            s@.len() == idx,
            forall|k: int| 0 <= k < idx ==> s@[k] == points@[k],
        decreases points@.len() - idx,
    {
        s.push(points[idx]);
        idx = idx + 1;
    }
    proof {
        assert(s@ =~= points@);
    }
    sort_points(&mut s);
    let d = dedup_points(&s);
    proof {
        assert forall|x: Coord| d@.contains(x) <==> points@.contains(x) by {}
        assert forall|k: int| 0 <= k < d@.len() implies coord_in_range(#[trigger] d@[k]) by {
            assert(points@.contains(d@[k]));
            let w = choose|w: int| 0 <= w < points@.len() && points@[w] == d@[k];
        }
    }
    if d.len() == 1 {
        let c0 = d[0];
        let mut ring2: Vec<Coord> = Vec::new();
        ring2.push(c0);
        ring2.push(c0);
        proof {
            assert(ring2@[0] == c0 && ring2@[1] == c0);
            assert(is_closed_ring(ring2@));
            assert(points@.contains(c0));
            assert forall|j: int| 0 <= j < points@.len()
                implies on_or_inside(ring2@, #[trigger] points@[j]) by {
                assert(d@.contains(points@[j]));
                let w = choose|w: int| 0 <= w < d@.len() && d@[w] == points@[j];
                assert(points@[j] == c0);
                lemma_cross_self(c0, c0);
                assert forall|e: int| 0 <= e && e + 1 < ring2@.len()
                    implies #[trigger] cross(ring2@[e], ring2@[e + 1], points@[j]) >= 0 by {
                    assert(e == 0);
                }
            }
            assert forall|i: int, j: int, k: int|
                0 <= i < points@.len() && 0 <= j < points@.len() && 0 <= k < points@.len()
                implies #[trigger] cross(points@[i], points@[j], points@[k]) == 0 by {
                assert(d@.contains(points@[i]));
                let wi = choose|w: int| 0 <= w < d@.len() && d@[w] == points@[i];
                assert(d@.contains(points@[j]));
                let wj = choose|w: int| 0 <= w < d@.len() && d@[w] == points@[j];
                assert(d@.contains(points@[k]));
                let wk = choose|w: int| 0 <= w < d@.len() && d@[w] == points@[k];
                lemma_cross_self(c0, c0);
            }
        }
        if reject_degenerate {
            return Err(BuildError::DegenerateInput);
        }
        return Ok(ring2);
    }
    let lower = half_hull(&d);
    let mut nr: Vec<Coord> = Vec::new();
    let mut k: usize = d.len();
    while k > 0
        invariant
            0 <= k <= d@.len(),
            forall|m: int| 0 <= m < d@.len() ==> coord_in_range(#[trigger] d@[m]),
            nr@.len() == d@.len() - k,
            forall|m: int| 0 <= m < nr@.len() ==> nr@[m] == negate(d@[d@.len() - 1 - m]),
        decreases k,
    {
        k = k - 1;
        let c = d[k];
        nr.push(Coord { x: -c.x, y: -c.y });
    }
    proof {
        assert forall|i: int, j: int| 0 <= i < j < nr@.len()
            implies lex_lt(#[trigger] nr@[i], #[trigger] nr@[j]) by {
            let a = d@[d@.len() - 1 - j];
            let b = d@[d@.len() - 1 - i];
            assert(lex_lt(a, b));
            lemma_lex_negate(a, b);
        }
        assert forall|m: int| 0 <= m < nr@.len()
            implies coord_in_range(#[trigger] nr@[m]) by {
            assert(nr@[m] == negate(d@[d@.len() - 1 - m]));
        }
    }
    let un = half_hull(&nr);
    let mut upper: Vec<Coord> = Vec::new();
    let mut k2: usize = 0;
    while k2 < un.len()
        invariant
            0 <= k2 <= un@.len(),
            forall|m: int| 0 <= m < un@.len() ==> coord_in_range(#[trigger] un@[m]),
            upper@.len() == k2,
            forall|m: int| 0 <= m < k2 ==> upper@[m] == negate(un@[m]),
        decreases un@.len() - k2,
    {
        let c = un[k2];
        upper.push(Coord { x: -c.x, y: -c.y });
        k2 = k2 + 1;
    }
    proof {
        // The un-negated upper chain runs from the lexicographic
        // maximum back to the minimum; transfer each chain property.
        assert(un@[0] == nr@[0]);
        assert(nr@[0] == negate(d@[d@.len() - 1]));
        lemma_negate_involutive(d@[d@.len() - 1]);
        assert(upper@[0] == d@[d@.len() - 1]);
        assert(un@.last() == nr@.last());
        assert(nr@[nr@.len() - 1] == negate(d@[0]));
        lemma_negate_involutive(d@[0]);
        assert(upper@[upper@.len() - 1] == d@[0]);
        assert forall|m: int| 0 <= m < upper@.len()
            implies d@.contains(#[trigger] upper@[m]) by {
            assert(nr@.contains(un@[m]));
            let w = choose|w: int| 0 <= w < nr@.len() && nr@[w] == un@[m];
            assert(nr@[w] == negate(d@[d@.len() - 1 - w]));
            lemma_negate_involutive(d@[d@.len() - 1 - w]);
            assert(upper@[m] == d@[d@.len() - 1 - w]);
        }
        assert forall|m: int| 0 <= m < upper@.len()
            implies coord_in_range(#[trigger] upper@[m]) by {
            assert(d@.contains(upper@[m]));
            let w = choose|w: int| 0 <= w < d@.len() && d@[w] == upper@[m];
        }
        assert forall|m: int| 0 <= m && m + 2 < upper@.len()
            implies #[trigger] cross(upper@[m], upper@[m + 1], upper@[m + 2]) > 0 by {
            assert(cross(un@[m], un@[m + 1], un@[m + 2]) > 0);
            lemma_cross_negate(un@[m], un@[m + 1], un@[m + 2]);
        }
        assert forall|e: int, j: int|
            0 <= e && e + 1 < upper@.len() && 0 <= j < d@.len()
            implies #[trigger] cross(upper@[e], upper@[e + 1], d@[j]) >= 0 by {
            let m = d@.len() - 1 - j;
            assert(nr@[m] == negate(d@[j]));
            assert(cross(un@[e], un@[e + 1], nr@[m]) >= 0);
            lemma_cross_negate(un@[e], un@[e + 1], nr@[m]);
            lemma_negate_involutive(d@[j]);
        }
    }
    let ghost lo = lower@;
    let ghost up = upper@;
    proof {
        assert(lo[0] == d@[0] && lo[lo.len() - 1] == d@[d@.len() - 1]);
        assert(lex_lt(d@[0], d@[d@.len() - 1]));
        assert(lo.len() >= 2) by {
            if lo.len() == 1 {
                assert(lo[0] == lo[lo.len() - 1]);
            }
        }
        assert(up.len() >= 2) by {
            if up.len() == 1 {
                assert(up[0] == up[up.len() - 1]);
            }
        }
    }
    let mut ring = lower;
    let mut k3: usize = 1;
    while k3 < upper.len()
        invariant
            1 <= k3 <= up.len(),
            up == upper@,
            ring@.len() == lo.len() + k3 - 1,
            forall|m: int| 0 <= m < lo.len() ==> ring@[m] == lo[m],
            forall|m: int| lo.len() <= m < ring@.len() ==> ring@[m] == up[m - lo.len() + 1],
        decreases up.len() - k3,
    {
        ring.push(upper[k3]);
        k3 = k3 + 1;
    }
    proof {
        let rg = ring@;
        let ll = lo.len();
        assert(rg.len() == ll + up.len() - 1);
        assert(rg[0] == d@[0]);
        assert(rg[rg.len() - 1] == up[up.len() - 1]);
        assert(is_closed_ring(rg));
        assert(lo[ll - 1] == up[0]);
        // Every ring entry is an input point.
        assert forall|m: int| 0 <= m < rg.len()
            implies points@.contains(#[trigger] rg[m]) by {
            if m < ll {
                assert(d@.contains(lo[m]));
            } else {
                assert(rg[m] == up[m - ll + 1]);
                assert(d@.contains(up[m - ll + 1]));
            }
        }
        // Containment: every input point is on or inside the ring.
        assert forall|j: int| 0 <= j < points@.len()
            implies on_or_inside(rg, #[trigger] points@[j]) by {
            let q = points@[j];
            assert(d@.contains(q));
            let wq = choose|w: int| 0 <= w < d@.len() && d@[w] == q;
            assert forall|e: int| 0 <= e && e + 1 < rg.len()
                implies #[trigger] cross(rg[e], rg[e + 1], q) >= 0 by {
                if e < ll - 1 {
                    assert(rg[e] == lo[e] && rg[e + 1] == lo[e + 1]);
                    assert(cross(lo[e], lo[e + 1], d@[wq]) >= 0);
                } else {
                    let m = e - ll + 1;
                    if e == ll - 1 {
                        assert(rg[e] == lo[ll - 1] && lo[ll - 1] == up[0]);
                    } else {
                        assert(rg[e] == up[m]);
                    }
                    assert(rg[e + 1] == up[m + 1]);
                    assert(cross(up[m], up[m + 1], d@[wq]) >= 0);
                }
            }
        }
        // The ring never turns clockwise; inside each chain it turns
        // strictly left, and the two junction turns are covered by the
        // other chain's first or last edge.
        assert forall|m: int| 0 <= m && m + 2 < rg.len()
            implies #[trigger] cross(rg[m], rg[m + 1], rg[m + 2]) >= 0 by {
            if m + 2 < ll {
                assert(cross(lo[m], lo[m + 1], lo[m + 2]) > 0);
            } else if m + 2 == ll {
                assert(rg[m] == lo[ll - 2] && rg[m + 1] == lo[ll - 1]);
                assert(rg[m + 2] == up[1]);
                assert(d@.contains(up[1]));
                let w1 = choose|w: int| 0 <= w < d@.len() && d@[w] == up[1];
                assert(cross(lo[ll - 2], lo[ll - 2 + 1], d@[w1]) >= 0);
            } else {
                let e = m - ll + 1;
                assert(rg[m] == up[e] && rg[m + 1] == up[e + 1] && rg[m + 2] == up[e + 2]);
                assert(cross(up[e], up[e + 1], up[e + 2]) > 0);
            }
        }
        assert(cross(rg[rg.len() - 2], rg[0], rg[1]) >= 0) by {
            assert(rg[rg.len() - 2] == up[up.len() - 2]);
            assert(rg[0] == up[up.len() - 1]);
            assert(rg[1] == lo[1]);
            assert(d@.contains(lo[1]));
            let w1 = choose|w: int| 0 <= w < d@.len() && d@[w] == lo[1];
            assert(cross(up[up.len() - 2], up[up.len() - 2 + 1], d@[w1]) >= 0);
        }
        assert(ring_turns(rg));
        // A short ring means the chains are bare segments, so every
        // point lies on the single supporting line; a longer ring
        // contains a strict turn, which rules collinearity out.
        if rg.len() <= 3 {
            assert(lo.len() == 2 && up.len() == 2);
            assert forall|j: int| 0 <= j < d@.len()
                implies cross(d@[0], d@[d@.len() - 1], #[trigger] d@[j]) == 0 by {
                let zi: int = 0;
                assert(cross(lo[zi], lo[zi + 1], d@[j]) >= 0);
                assert(cross(up[zi], up[zi + 1], d@[j]) >= 0);
                assert(up[0] == d@[d@.len() - 1] && up[1] == d@[0]);
                lemma_cross_swap01(d@[d@.len() - 1], d@[0], d@[j]);
                lemma_cross_swap(d@[0], d@[d@.len() - 1], d@[j]);
                lemma_cross_swap(d@[0], d@[j], d@[d@.len() - 1]);
                lemma_cross_swap01(d@[0], d@[d@.len() - 1], d@[j]);
            }
            assert forall|i: int, j: int, w: int|
                0 <= i < points@.len() && 0 <= j < points@.len() && 0 <= w < points@.len()
                implies #[trigger] cross(points@[i], points@[j], points@[w]) == 0 by {
                assert(d@.contains(points@[i]));
                let wi = choose|v: int| 0 <= v < d@.len() && d@[v] == points@[i];
                assert(d@.contains(points@[j]));
                let wj = choose|v: int| 0 <= v < d@.len() && d@[v] == points@[j];
                assert(d@.contains(points@[w]));
                let ww = choose|v: int| 0 <= v < d@.len() && d@[v] == points@[w];
                assert(cross(d@[0], d@[d@.len() - 1], d@[wi]) == 0);
                assert(cross(d@[0], d@[d@.len() - 1], d@[wj]) == 0);
                assert(cross(d@[0], d@[d@.len() - 1], d@[ww]) == 0);
                assert(d@[0] != d@[d@.len() - 1]);
                lemma_line_collinear(d@[0], d@[d@.len() - 1], points@[i], points@[j], points@[w]);
            }
            assert(all_collinear(points@));
        } else {
            assert(lo.len() >= 3 || up.len() >= 3);
            if lo.len() >= 3 {
                let zi: int = 0;
                assert(cross(lo[zi], lo[zi + 1], lo[zi + 2]) > 0);
                assert(d@.contains(lo[0]) && d@.contains(lo[1]) && d@.contains(lo[2]));
                assert(points@.contains(lo[0]) && points@.contains(lo[1])
                    && points@.contains(lo[2]));
                let i0 = choose|v: int| 0 <= v < points@.len() && points@[v] == lo[0];
                let i1 = choose|v: int| 0 <= v < points@.len() && points@[v] == lo[1];
                let i2 = choose|v: int| 0 <= v < points@.len() && points@[v] == lo[2];
                assert(cross(points@[i0], points@[i1], points@[i2]) > 0);
            } else {
                let zi: int = 0;
                assert(cross(up[zi], up[zi + 1], up[zi + 2]) > 0);
                assert(points@.contains(up[0]) && points@.contains(up[1])
                    && points@.contains(up[2]));
                let i0 = choose|v: int| 0 <= v < points@.len() && points@[v] == up[0];
                let i1 = choose|v: int| 0 <= v < points@.len() && points@[v] == up[1];
                let i2 = choose|v: int| 0 <= v < points@.len() && points@[v] == up[2];
                assert(cross(points@[i0], points@[i1], points@[i2]) > 0);
            }
            assert(!all_collinear(points@));
            // The turn at the lexicographic maximum is strict: were it
            // flat, the last lower edge and the first upper edge would
            // share a supporting line holding every point.
            let aj = lo[ll - 2];
            let mj = lo[ll - 1];
            let bj = up[1];
            lemma_lex_negate(un@[0], un@[1]);
            assert(lex_lt(bj, mj));
            assert(lex_lt(aj, mj));
            assert(d@.contains(bj));
            let wb = choose|w: int| 0 <= w < d@.len() && d@[w] == bj;
            assert(cross(lo[ll - 2], lo[ll - 2 + 1], d@[wb]) >= 0);
            if cross(aj, mj, bj) == 0 {
                assert forall|j: int| 0 <= j < d@.len()
                    implies cross(aj, mj, #[trigger] d@[j]) == 0 by {
                    let zi: int = 0;
                    assert(cross(lo[ll - 2], lo[ll - 2 + 1], d@[j]) >= 0);
                    assert(cross(up[zi], up[zi + 1], d@[j]) >= 0);
                    lemma_junction_strict(aj, mj, bj, d@[j]);
                }
                assert forall|i: int, j: int, w: int|
                    0 <= i < points@.len() && 0 <= j < points@.len() && 0 <= w < points@.len()
                    implies #[trigger] cross(points@[i], points@[j], points@[w]) == 0 by {
                    assert(d@.contains(points@[i]));
                    let wi = choose|v: int| 0 <= v < d@.len() && d@[v] == points@[i];
                    assert(d@.contains(points@[j]));
                    let wj = choose|v: int| 0 <= v < d@.len() && d@[v] == points@[j];
                    assert(d@.contains(points@[w]));
                    let ww = choose|v: int| 0 <= v < d@.len() && d@[v] == points@[w];
                    assert(cross(aj, mj, d@[wi]) == 0);
                    assert(cross(aj, mj, d@[wj]) == 0);
                    assert(cross(aj, mj, d@[ww]) == 0);
                    lemma_line_collinear(aj, mj, points@[i], points@[j], points@[w]);
                }
                assert(false);
            }
            assert(cross(aj, mj, bj) > 0);
            // The wrap-around turn at the lexicographic minimum is
            // strict by the mirrored argument on negated points.
            let ue = up[up.len() - 2];
            let mn = up[up.len() - 1];
            let bl = lo[1];
            lemma_lex_negate(un@[un@.len() - 2], un@[un@.len() - 1]);
            assert(lex_lt(mn, ue));
            assert(lex_lt(mn, bl));
            assert(d@.contains(ue));
            let wu = choose|w: int| 0 <= w < d@.len() && d@[w] == ue;
            if cross(ue, mn, bl) == 0 {
                lemma_lex_negate(mn, ue);
                lemma_lex_negate(mn, bl);
                lemma_cross_negate(ue, mn, bl);
                assert forall|j: int| 0 <= j < d@.len()
                    implies cross(ue, mn, #[trigger] d@[j]) == 0 by {
                    let zi: int = 0;
                    assert(cross(up[up.len() - 2], up[up.len() - 2 + 1], d@[j]) >= 0);
                    assert(cross(lo[zi], lo[zi + 1], d@[j]) >= 0);
                    lemma_cross_negate(ue, mn, d@[j]);
                    lemma_cross_negate(mn, bl, d@[j]);
                    lemma_junction_strict(negate(ue), negate(mn), negate(bl), negate(d@[j]));
                }
                assert forall|i: int, j: int, w: int|
                    0 <= i < points@.len() && 0 <= j < points@.len() && 0 <= w < points@.len()
                    implies #[trigger] cross(points@[i], points@[j], points@[w]) == 0 by {
                    assert(d@.contains(points@[i]));
                    let wi = choose|v: int| 0 <= v < d@.len() && d@[v] == points@[i];
                    assert(d@.contains(points@[j]));
                    let wj = choose|v: int| 0 <= v < d@.len() && d@[v] == points@[j];
                    assert(d@.contains(points@[w]));
                    let ww = choose|v: int| 0 <= v < d@.len() && d@[v] == points@[w];
                    assert(cross(ue, mn, d@[wi]) == 0);
                    assert(cross(ue, mn, d@[wj]) == 0);
                    assert(cross(ue, mn, d@[ww]) == 0);
                    assert(ue != mn);
                    lemma_line_collinear(ue, mn, points@[i], points@[j], points@[w]);
                }
                assert(false);
            }
            assert(cross(ue, mn, bl) > 0);
            // Assemble strict convexity of the whole ring.
            assert forall|m: int| 0 <= m && m + 2 < rg.len()
                implies #[trigger] cross(rg[m], rg[m + 1], rg[m + 2]) > 0 by {
                if m + 2 < ll {
                    assert(cross(lo[m], lo[m + 1], lo[m + 2]) > 0);
                } else if m + 2 == ll {
                    assert(rg[m] == lo[ll - 2] && rg[m + 1] == lo[ll - 1]);
                    assert(rg[m + 2] == up[1]);
                } else {
                    let e = m - ll + 1;
                    if m == ll - 1 {
                        assert(rg[m] == lo[ll - 1] && lo[ll - 1] == up[0]);
                    } else {
                        assert(rg[m] == up[e]);
                    }
                    assert(rg[m + 1] == up[e + 1] && rg[m + 2] == up[e + 2]);
                    assert(cross(up[e], up[e + 1], up[e + 2]) > 0);
                }
            }
            assert(cross(rg[rg.len() - 2], rg[0], rg[1]) > 0) by {
                assert(rg[rg.len() - 2] == up[up.len() - 2]);
                assert(rg[0] == up[up.len() - 1]);
                assert(rg[1] == lo[1]);
            }
            assert(is_convex_ccw_ring(rg));
        }
    }
    if reject_degenerate && ring.len() <= 3 {
        return Err(BuildError::DegenerateInput);
    }
    Ok(ring)
}

} // verus!
