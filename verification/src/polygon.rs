//! Exact integer predicates on plan polygons: orientation, segment
//! intersection, self-intersection and redundant vertices.

use vstd::prelude::*;

use crate::units::Point2;

verus! {

/// Whether `x` fits in an `i64`.
pub open spec fn fits64(x: int) -> bool {
    i64::MIN <= x <= i64::MAX
}

/// Every coordinate difference between two of the points fits in an `i64`.
pub open spec fn diffs_fit(ps: Seq<Point2>) -> bool {
    forall|i: int, j: int|
        0 <= i < ps.len() && 0 <= j < ps.len() ==> fits64(#[trigger] ps[i].x.ticks - #[trigger] ps[j].x.ticks) && fits64(
            ps[i].y.ticks - ps[j].y.ticks,
        )
}

/// Twice the signed area of triangle `abc` (positive when counter-clockwise).
pub open spec fn orient(a: Point2, b: Point2, c: Point2) -> int {
    (b.x.ticks - a.x.ticks) * (c.y.ticks - a.y.ticks) - (b.y.ticks - a.y.ticks) * (c.x.ticks - a.x.ticks)
}

/// The coordinate differences among three points fit in an `i64`.
pub open spec fn triple_fits(a: Point2, b: Point2, c: Point2) -> bool {
    &&& fits64(b.x.ticks - a.x.ticks) && fits64(b.y.ticks - a.y.ticks)
    &&& fits64(c.x.ticks - a.x.ticks) && fits64(c.y.ticks - a.y.ticks)
}

pub fn orientation(a: Point2, b: Point2, c: Point2) -> (r: i128)
    requires
        triple_fits(a, b, c),
    ensures
        r == orient(a, b, c),
{
    let abx = (b.x.ticks - a.x.ticks) as i128;
    let aby = (b.y.ticks - a.y.ticks) as i128;
    let acx = (c.x.ticks - a.x.ticks) as i128;
    let acy = (c.y.ticks - a.y.ticks) as i128;
    proof {
        lemma_product_bounds(abx as int, acy as int);
        lemma_product_bounds(aby as int, acx as int);
    }
    abx * acy - aby * acx
}

/// Bounds on a product of two `i64` values.
pub proof fn lemma_product_bounds(a: int, b: int)
    requires
        fits64(a),
        fits64(b),
    ensures
        -0x3fff_ffff_ffff_ffff_8000_0000_0000_0000 <= a * b <= 0x4000_0000_0000_0000_0000_0000_0000_0000,
{
    if a >= 0 && b >= 0 {
        assert(a * b <= 0x7fff_ffff_ffff_ffff * 0x7fff_ffff_ffff_ffff) by (nonlinear_arith)
            requires
                0 <= a <= 0x7fff_ffff_ffff_ffff,
                0 <= b <= 0x7fff_ffff_ffff_ffff,
        ;
        assert(0 <= a * b) by (nonlinear_arith)
            requires
                0 <= a,
                0 <= b,
        ;
    } else if a < 0 && b < 0 {
        assert(a * b <= 0x8000_0000_0000_0000 * 0x8000_0000_0000_0000) by (nonlinear_arith)
            requires
                -0x8000_0000_0000_0000 <= a < 0,
                -0x8000_0000_0000_0000 <= b < 0,
        ;
        assert(0 <= a * b) by (nonlinear_arith)
            requires
                a < 0,
                b < 0,
        ;
    } else if a < 0 {
        assert(a * b >= -0x8000_0000_0000_0000 * 0x7fff_ffff_ffff_ffff) by (nonlinear_arith)
            requires
                -0x8000_0000_0000_0000 <= a < 0,
                0 <= b <= 0x7fff_ffff_ffff_ffff,
        ;
        assert(a * b <= 0) by (nonlinear_arith)
            requires
                a < 0,
                b >= 0,
        ;
    } else {
        assert(a * b >= 0x7fff_ffff_ffff_ffff * -0x8000_0000_0000_0000) by (nonlinear_arith)
            requires
                0 <= a <= 0x7fff_ffff_ffff_ffff,
                -0x8000_0000_0000_0000 <= b < 0,
        ;
        assert(a * b <= 0) by (nonlinear_arith)
            requires
                a >= 0,
                b < 0,
        ;
    }
}

/// `v` lies between `x` and `y` inclusive.
pub open spec fn between(v: int, x: int, y: int) -> bool {
    (if x <= y { x } else { y }) <= v <= (if x <= y { y } else { x })
}

/// `p` lies in the bounding box of segment `ab`.
pub open spec fn in_box(a: Point2, b: Point2, p: Point2) -> bool {
    between(p.x.ticks as int, a.x.ticks as int, b.x.ticks as int) && between(p.y.ticks as int, a.y.ticks as int, b.y.ticks as int)
}

pub fn on_segment(a: Point2, b: Point2, p: Point2) -> (r: bool)
    ensures
        r == in_box(a, b, p),
{
    let (lx, hx) = if a.x.ticks <= b.x.ticks { (a.x.ticks, b.x.ticks) } else { (b.x.ticks, a.x.ticks) };
    let (ly, hy) = if a.y.ticks <= b.y.ticks { (a.y.ticks, b.y.ticks) } else { (b.y.ticks, a.y.ticks) };
    lx <= p.x.ticks && p.x.ticks <= hx && ly <= p.y.ticks && p.y.ticks <= hy
}

/// Closed segments `p1p2` and `p3p4` cross properly or touch.
pub open spec fn segments_meet(p1: Point2, p2: Point2, p3: Point2, p4: Point2) -> bool {
    let d1 = orient(p3, p4, p1);
    let d2 = orient(p3, p4, p2);
    let d3 = orient(p1, p2, p3);
    let d4 = orient(p1, p2, p4);
    ||| ((d1 > 0 && d2 < 0) || (d1 < 0 && d2 > 0)) && ((d3 > 0 && d4 < 0) || (d3 < 0 && d4 > 0))
    ||| d1 == 0 && in_box(p3, p4, p1)
    ||| d2 == 0 && in_box(p3, p4, p2)
    ||| d3 == 0 && in_box(p1, p2, p3)
    ||| d4 == 0 && in_box(p1, p2, p4)
}

/// The coordinate differences among four points fit in an `i64`.
pub open spec fn quad_fits(p1: Point2, p2: Point2, p3: Point2, p4: Point2) -> bool {
    &&& triple_fits(p3, p4, p1)
    &&& triple_fits(p3, p4, p2)
    &&& triple_fits(p1, p2, p3)
    &&& triple_fits(p1, p2, p4)
}

pub fn segments_intersect(p1: Point2, p2: Point2, p3: Point2, p4: Point2) -> (r: bool)
    requires
        quad_fits(p1, p2, p3, p4),
    ensures
        r == segments_meet(p1, p2, p3, p4),
{
    let d1 = orientation(p3, p4, p1);
    let d2 = orientation(p3, p4, p2);
    let d3 = orientation(p1, p2, p3);
    let d4 = orientation(p1, p2, p4);
    let proper = ((d1 > 0 && d2 < 0) || (d1 < 0 && d2 > 0)) && ((d3 > 0 && d4 < 0) || (d3 < 0 && d4 > 0));
    proper || (d1 == 0 && on_segment(p3, p4, p1)) || (d2 == 0 && on_segment(p3, p4, p2)) || (d3 == 0 && on_segment(
        p1,
        p2,
        p3,
    )) || (d4 == 0 && on_segment(p1, p2, p4))
}

/// The ring of a polygon: an explicitly repeated closing point is dropped.
pub open spec fn ring(points: Seq<Point2>) -> Seq<Point2> {
    if points.len() >= 2 && points[0] == points.last() {
        points.drop_last()
    } else {
        points
    }
}

/// Edges `i` and `j` of ring `ps` meet.
pub open spec fn edges_meet(ps: Seq<Point2>, i: int, j: int) -> bool {
    let n = ps.len() as int;
    segments_meet(ps[i], ps[(i + 1) % n], ps[j], ps[(j + 1) % n])
}

/// Two edges that share no vertex meet.
pub open spec fn self_intersecting(points: Seq<Point2>) -> bool {
    let ps = ring(points);
    let n = ps.len() as int;
    n >= 4 && exists|i: int, j: int|
        0 <= i < j < n && j != i + 1 && !(i == 0 && j == n - 1) && #[trigger] edges_meet(ps, i, j)
}

proof fn lemma_quad_fits(ps: Seq<Point2>, a: int, b: int, c: int, d: int)
    requires
        diffs_fit(ps),
        0 <= a < ps.len(),
        0 <= b < ps.len(),
        0 <= c < ps.len(),
        0 <= d < ps.len(),
    ensures
        quad_fits(ps[a], ps[b], ps[c], ps[d]),
{
    assert(fits64(ps[b].x.ticks - ps[a].x.ticks) && fits64(ps[b].y.ticks - ps[a].y.ticks));
    assert(fits64(ps[c].x.ticks - ps[a].x.ticks) && fits64(ps[c].y.ticks - ps[a].y.ticks));
    assert(fits64(ps[d].x.ticks - ps[a].x.ticks) && fits64(ps[d].y.ticks - ps[a].y.ticks));
    assert(fits64(ps[d].x.ticks - ps[c].x.ticks) && fits64(ps[d].y.ticks - ps[c].y.ticks));
    assert(fits64(ps[a].x.ticks - ps[c].x.ticks) && fits64(ps[a].y.ticks - ps[c].y.ticks));
    assert(fits64(ps[b].x.ticks - ps[c].x.ticks) && fits64(ps[b].y.ticks - ps[c].y.ticks));
}

/// Whether two edges of the polygon that share no vertex cross or touch.
pub fn polygon_self_intersects(points: &Vec<Point2>) -> (r: bool)
    requires
        diffs_fit(points@),
    ensures
        r == self_intersecting(points@),
{
    let mut n = points.len();
    if n >= 2 && points[0] == points[n - 1] {
        n = n - 1;
    }
    let ghost ps = ring(points@);
    assert(ps.len() == n);
    assert forall|t: int| 0 <= t < n implies ps[t] == points@[t] by {}
    if n < 4 {
        return false;
    }
    let mut i: usize = 0;
    while i < n
        invariant
            ps == ring(points@),
            ps.len() == n,
            4 <= n <= points.len(),
            diffs_fit(points@),
            forall|t: int| 0 <= t < n ==> ps[t] == points@[t],
            i <= n,
            forall|a: int, b: int| 0 <= a < i && a < b < n && b != a + 1 && !(a == 0 && b == n - 1) ==> !#[trigger] edges_meet(ps, a, b),
        decreases n - i,
    {
        let mut j: usize = i + 1;
        while j < n
            invariant
                ps == ring(points@),
                ps.len() == n,
                4 <= n <= points.len(),
                diffs_fit(points@),
                forall|t: int| 0 <= t < n ==> ps[t] == points@[t],
                i < n,
                i + 1 <= j <= n,
                forall|a: int, b: int| 0 <= a < i && a < b < n && b != a + 1 && !(a == 0 && b == n - 1) ==> !#[trigger] edges_meet(ps, a, b),
                forall|b: int| i < b < j && b != i + 1 && !(i == 0 && b == n - 1) ==> !#[trigger] edges_meet(ps, i as int, b),
            decreases n - j,
        {
            if !(j == i + 1 || (i == 0 && j == n - 1)) {
                let i2 = (i + 1) % n;
                let j2 = (j + 1) % n;
                proof {
                    lemma_quad_fits(points@, i as int, i2 as int, j as int, j2 as int);
                }
                if segments_intersect(points[i], points[i2], points[j], points[j2]) {
                    assert(edges_meet(ps, i as int, j as int));
                    return true;
                }
            }
            j = j + 1;
        }
        i = i + 1;
    }
    false
}

/// Twice the turn at vertex `cur`: cross product of the incoming and outgoing edges.
pub open spec fn turn(prev: Point2, cur: Point2, next: Point2) -> int {
    (cur.x.ticks - prev.x.ticks) * (next.y.ticks - cur.y.ticks) - (cur.y.ticks - prev.y.ticks) * (next.x.ticks - cur.x.ticks)
}

/// Vertex `i` repeats a neighbour or lies on the straight line through them.
pub open spec fn redundant_at(ps: Seq<Point2>, i: int) -> bool {
    let n = ps.len() as int;
    let prev = ps[if i == 0 { n - 1 } else { i - 1 }];
    let cur = ps[i];
    let next = ps[(i + 1) % n];
    prev == cur || cur == next || turn(prev, cur, next) == 0
}

/// Some vertex of a polygon (of at least three points) is redundant.
pub open spec fn has_redundant_vertex(ps: Seq<Point2>) -> bool {
    ps.len() >= 3 && exists|i: int| 0 <= i < ps.len() && #[trigger] redundant_at(ps, i)
}

pub fn polygon_has_redundant_vertices(points: &Vec<Point2>) -> (r: bool)
    requires
        diffs_fit(points@),
    ensures
        r == has_redundant_vertex(points@),
{
    let n = points.len();
    if n < 3 {
        return false;
    }
    let mut i: usize = 0;
    while i < n
        invariant
            n == points.len(),
            n >= 3,
            i <= n,
            diffs_fit(points@),
            forall|t: int| 0 <= t < i ==> !#[trigger] redundant_at(points@, t),
        decreases n - i,
    {
        let p = if i == 0 { n - 1 } else { i - 1 };
        let q = (i + 1) % n;
        let previous = points[p];
        let current = points[i];
        let next = points[q];
        if previous == current || current == next {
            assert(redundant_at(points@, i as int));
            return true;
        }
        proof {
            assert(fits64(points@[i as int].x.ticks - points@[p as int].x.ticks));
            assert(fits64(points@[i as int].y.ticks - points@[p as int].y.ticks));
            assert(fits64(points@[q as int].x.ticks - points@[i as int].x.ticks));
            assert(fits64(points@[q as int].y.ticks - points@[i as int].y.ticks));
        }
        let ax = current.x.ticks as i128 - previous.x.ticks as i128;
        let ay = current.y.ticks as i128 - previous.y.ticks as i128;
        let bx = next.x.ticks as i128 - current.x.ticks as i128;
        let by = next.y.ticks as i128 - current.y.ticks as i128;
        proof {
            lemma_product_bounds(ax as int, by as int);
            lemma_product_bounds(ay as int, bx as int);
        }
        if ax * by - ay * bx == 0 {
            assert(redundant_at(points@, i as int));
            return true;
        }
        i = i + 1;
    }
    false
}

} // verus!
