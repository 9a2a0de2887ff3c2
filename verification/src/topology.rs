//! Exact plan-polygon topology: winding, reflex corners, ear-clipping
//! triangulation and the even-odd point-in-polygon test.

use vstd::prelude::*;

use crate::polygon::{diffs_fit, fits64, lemma_product_bounds, orient, orientation, triple_fits};
use crate::units::{Length, Point2};

verus! {

/// Whether `x` fits in an `i128`.
pub open spec fn fits128(x: int) -> bool {
    i128::MIN <= x <= i128::MAX
}

/// The shoelace term of edge `i` (to the next vertex, wrapping around).
pub open spec fn shoelace_term(ps: Seq<Point2>, i: int) -> int {
    let a = ps[i];
    let b = ps[(i + 1) % (ps.len() as int)];
    a.x.ticks * b.y.ticks - b.x.ticks * a.y.ticks
}

/// The shoelace sum of the first `k` edges.
pub open spec fn shoelace_upto(ps: Seq<Point2>, k: int) -> int
    decreases k,
{
    if k <= 0 {
        0
    } else {
        shoelace_upto(ps, k - 1) + shoelace_term(ps, k - 1)
    }
}

/// Twice the signed area of the polygon, counter-clockwise positive.
pub open spec fn signed_area2(ps: Seq<Point2>) -> int {
    shoelace_upto(ps, ps.len() as int)
}

/// Shoelace sums that agree term by term agree.
proof fn lemma_upto_agree(p: Seq<Point2>, q: Seq<Point2>, j: int)
    requires
        0 <= j,
        forall|k: int| 0 <= k < j ==> #[trigger] shoelace_term(p, k) == shoelace_term(q, k),
    ensures
        shoelace_upto(p, j) == shoelace_upto(q, j),
    decreases j,
{
    if j > 0 {
        lemma_upto_agree(p, q, j - 1);
    }
}

/// `x % m` for `0 <= x < m`.
proof fn lemma_mod_small(x: int, m: int)
    requires
        0 <= x < m,
    ensures
        x % m == x,
{
    vstd::arithmetic::div_mod::lemma_small_mod(x as nat, m as nat);
}

/// Rotating the polygon by one vertex: the running sums shift by one term.
proof fn lemma_rotate_one_upto(q: Seq<Point2>, j: int)
    requires
        q.len() >= 2,
        0 <= j <= q.len() - 1,
    ensures
        shoelace_upto(q.drop_first().push(q[0]), j) == shoelace_upto(q, j + 1) - shoelace_term(q, 0),
    decreases j,
{
    let r = q.drop_first().push(q[0]);
    let m = q.len() as int;
    reveal_with_fuel(shoelace_upto, 2);
    if j > 0 {
        lemma_rotate_one_upto(q, j - 1);
        let k = j - 1;
        lemma_mod_small(k + 1, m);
        if k + 2 < m {
            lemma_mod_small(k + 2, m);
            assert(shoelace_term(r, k) == shoelace_term(q, k + 1));
        } else {
            vstd::arithmetic::div_mod::lemma_mod_self_0(m);
            assert(shoelace_term(r, k) == shoelace_term(q, k + 1));
        }
    }
}

/// Rotating the polygon by one vertex keeps its area.
proof fn lemma_rotate_one_area(q: Seq<Point2>)
    requires
        q.len() >= 2,
    ensures
        signed_area2(q.drop_first().push(q[0])) == signed_area2(q),
{
    let r = q.drop_first().push(q[0]);
    let m = q.len() as int;
    lemma_rotate_one_upto(q, m - 1);
    vstd::arithmetic::div_mod::lemma_mod_self_0(m);
    lemma_mod_small(1, m);
    assert(shoelace_term(r, m - 1) == shoelace_term(q, 0));
}

/// The polygon started at vertex `s`.
pub open spec fn rotated(q: Seq<Point2>, s: int) -> Seq<Point2> {
    q.subrange(s, q.len() as int) + q.subrange(0, s)
}

/// Starting the polygon at another vertex keeps its area.
proof fn lemma_rotated_area(q: Seq<Point2>, s: int)
    requires
        q.len() >= 2,
        0 <= s <= q.len(),
    ensures
        signed_area2(rotated(q, s)) == signed_area2(q),
    decreases s,
{
    if s == 0 {
        assert(rotated(q, 0) =~= q);
    } else {
        lemma_rotated_area(q, s - 1);
        let r = rotated(q, s - 1);
        lemma_rotate_one_area(r);
        assert(r.drop_first().push(r[0]) =~= rotated(q, s));
    }
}

/// Twice the signed area of a triangle is its orientation.
proof fn lemma_triangle_area(a: Point2, b: Point2, c: Point2)
    ensures
        signed_area2(seq![a, b, c]) == orient(a, b, c),
{
    let q = seq![a, b, c];
    lemma_mod_small(1, 3);
    lemma_mod_small(2, 3);
    vstd::arithmetic::div_mod::lemma_mod_self_0(3);
    assert(shoelace_upto(q, 3) == shoelace_term(q, 0) + shoelace_term(q, 1) + shoelace_term(q, 2)) by {
        assert(shoelace_upto(q, 0) == 0);
        assert(shoelace_upto(q, 1) == shoelace_term(q, 0));
        assert(shoelace_upto(q, 2) == shoelace_upto(q, 1) + shoelace_term(q, 1));
    }
    let (ax, ay, bx, by_, cx, cy) = (a.x.ticks as int, a.y.ticks as int, b.x.ticks as int, b.y.ticks as int, c.x.ticks as int, c.y.ticks as int);
    assert((bx - ax) * (cy - ay) == bx * cy - bx * ay - ax * cy + ax * ay) by (nonlinear_arith);
    assert((by_ - ay) * (cx - ax) == cx * by_ - ax * by_ - cx * ay + ax * ay) by (nonlinear_arith);
}

/// Cutting off the last vertex removes the triangle it makes with its neighbours.
proof fn lemma_cut_last_area(q: Seq<Point2>)
    requires
        q.len() >= 3,
    ensures
        signed_area2(q) == orient(q[q.len() - 2], q[q.len() - 1], q[0]) + signed_area2(q.drop_last()),
{
    let m = q.len() as int;
    let d = q.drop_last();
    assert forall|k: int| 0 <= k < m - 2 implies #[trigger] shoelace_term(q, k) == shoelace_term(d, k) by {
        lemma_mod_small(k + 1, m);
        lemma_mod_small(k + 1, m - 1);
    }
    lemma_upto_agree(q, d, m - 2);
    lemma_mod_small(m - 1, m);
    vstd::arithmetic::div_mod::lemma_mod_self_0(m);
    vstd::arithmetic::div_mod::lemma_mod_self_0(m - 1);
    reveal_with_fuel(shoelace_upto, 2);
    assert(shoelace_upto(q, m) == shoelace_upto(q, m - 2) + shoelace_term(q, m - 2) + shoelace_term(q, m - 1));
    assert(shoelace_upto(d, m - 1) == shoelace_upto(d, m - 2) + shoelace_term(d, m - 2));
    let (a, b, c) = (q[m - 2], q[m - 1], q[0]);
    let (ax, ay, bx, by_, cx, cy) = (a.x.ticks as int, a.y.ticks as int, b.x.ticks as int, b.y.ticks as int, c.x.ticks as int, c.y.ticks as int);
    lemma_cross_expand(ax, ay, bx, by_, cx, cy);
}

/// The cross product of `b - a` and `c - a`, expanded into the three
/// shoelace terms.
proof fn lemma_cross_expand(ax: int, ay: int, bx: int, by_: int, cx: int, cy: int)
    ensures
        (ax * by_ - bx * ay) + (bx * cy - cx * by_) - (ax * cy - cx * ay) == (bx - ax) * (cy - ay) - (by_ - ay) * (cx - ax),
{
    vstd::arithmetic::mul::lemma_mul_is_distributive_sub(bx - ax, cy, ay);
    vstd::arithmetic::mul::lemma_mul_is_distributive_sub_other_way(cy, bx, ax);
    vstd::arithmetic::mul::lemma_mul_is_distributive_sub_other_way(ay, bx, ax);
    vstd::arithmetic::mul::lemma_mul_is_distributive_sub(by_ - ay, cx, ax);
    vstd::arithmetic::mul::lemma_mul_is_distributive_sub_other_way(cx, by_, ay);
    vstd::arithmetic::mul::lemma_mul_is_distributive_sub_other_way(ax, by_, ay);
    vstd::arithmetic::mul::lemma_mul_is_commutative(ax, by_);
    vstd::arithmetic::mul::lemma_mul_is_commutative(bx, ay);
    vstd::arithmetic::mul::lemma_mul_is_commutative(cx, by_);
    vstd::arithmetic::mul::lemma_mul_is_commutative(ax, cy);
    vstd::arithmetic::mul::lemma_mul_is_commutative(cx, ay);
    vstd::arithmetic::mul::lemma_mul_is_commutative(bx, cy);
    vstd::arithmetic::mul::lemma_mul_is_commutative(ax, ay);
}

/// Cutting off the vertex at position `i` removes the triangle it makes with
/// its neighbours.
pub proof fn lemma_cut_vertex_area(q: Seq<Point2>, i: int)
    requires
        q.len() >= 3,
        0 <= i < q.len(),
    ensures
        signed_area2(q) == orient(
            q[ring_prev(q.len() as int, i)],
            q[i],
            q[ring_next(q.len() as int, i)],
        ) + signed_area2(q.remove(i)),
{
    let m = q.len() as int;
    let r = rotated(q, i + 1);
    lemma_rotated_area(q, i + 1);
    lemma_cut_last_area(r);
    assert(r[m - 1] == q[i]);
    assert(r[m - 2] == q[ring_prev(m, i)]);
    assert(r[0] == q[ring_next(m, i)]);
    let t = q.remove(i);
    assert(r.drop_last() =~= rotated(t, i));
    lemma_rotated_area(t, i);
}

/// Running the polygon backwards: the running sums, from the far end.
proof fn lemma_reverse_upto(q: Seq<Point2>, j: int)
    requires
        q.len() >= 2,
        0 <= j <= q.len() - 1,
    ensures
        shoelace_upto(q.reverse(), j) == shoelace_upto(q, q.len() - 1 - j) - shoelace_upto(q, q.len() - 1),
    decreases j,
{
    let m = q.len() as int;
    let r = q.reverse();
    if j > 0 {
        lemma_reverse_upto(q, j - 1);
        let k = j - 1;
        lemma_mod_small(k + 1, m);
        lemma_mod_small(m - 1 - k, m);
        assert(r[k] == q[m - 1 - k]);
        assert(r[k + 1] == q[m - 2 - k]);
        let (a, b) = (q[m - 2 - k], q[m - 1 - k]);
        assert(shoelace_term(r, k) == -shoelace_term(q, m - 2 - k)) by {
            assert(shoelace_term(r, k) == b.x.ticks * a.y.ticks - a.x.ticks * b.y.ticks);
            assert(shoelace_term(q, m - 2 - k) == a.x.ticks * b.y.ticks - b.x.ticks * a.y.ticks);
        }
    }
}

/// Running the polygon backwards negates its signed area.
pub proof fn lemma_reverse_area(q: Seq<Point2>)
    requires
        q.len() >= 2,
    ensures
        signed_area2(q.reverse()) == -signed_area2(q),
{
    let m = q.len() as int;
    let r = q.reverse();
    lemma_reverse_upto(q, m - 1);
    vstd::arithmetic::div_mod::lemma_mod_self_0(m);
    assert(shoelace_upto(q, 0) == 0);
    let (a, b) = (q[m - 1], q[0]);
    assert(r[m - 1] == b && r[0] == a);
    assert(shoelace_term(r, m - 1) == -shoelace_term(q, m - 1)) by {
        assert(shoelace_term(r, m - 1) == b.x.ticks * a.y.ticks - a.x.ticks * b.y.ticks);
        assert(shoelace_term(q, m - 1) == a.x.ticks * b.y.ticks - b.x.ticks * a.y.ticks);
    }
}

/// A two-vertex polygon encloses nothing.
proof fn lemma_segment_area(a: Point2, b: Point2)
    ensures
        signed_area2(seq![a, b]) == 0,
{
    let q = seq![a, b];
    lemma_mod_small(1, 2);
    vstd::arithmetic::div_mod::lemma_mod_self_0(2);
    reveal_with_fuel(shoelace_upto, 3);
    assert(shoelace_upto(q, 2) == shoelace_term(q, 0) + shoelace_term(q, 1));
}

/// The polygon a ring of vertex positions traces through `ps`.
pub open spec fn ring_polygon(ps: Seq<Point2>, ring: Seq<usize>) -> Seq<Point2> {
    ring.map_values(|i: usize| ps[i as int])
}

/// Twice the signed areas of the triangles (by vertex positions), summed.
pub open spec fn triangles_area2(ps: Seq<Point2>, ts: Seq<[usize; 3]>) -> int
    decreases ts.len(),
{
    if ts.len() == 0 {
        0
    } else {
        let t = ts.last();
        triangles_area2(ps, ts.drop_last()) + orient(ps[t@[0] as int], ps[t@[1] as int], ps[t@[2] as int])
    }
}

/// Twice the area a triangulation of the polygon covers: the polygon's area,
/// signed by its winding for a triangle, and unsigned for more vertices (which
/// are taken counter-clockwise).
pub open spec fn triangulated_area2(ps: Seq<Point2>) -> int {
    if ps.len() > 3 && signed_area2(ps) < 0 {
        -signed_area2(ps)
    } else {
        signed_area2(ps)
    }
}

/// One more triangle adds its area.
proof fn lemma_triangles_area_push(ps: Seq<Point2>, ts: Seq<[usize; 3]>, t: [usize; 3])
    ensures
        triangles_area2(ps, ts.push(t)) == triangles_area2(ps, ts) + orient(ps[t@[0] as int], ps[t@[1] as int], ps[t@[2] as int]),
{
    assert(ts.push(t).drop_last() =~= ts);
}

/// Every shoelace term and running sum fits in an `i128`.
pub open spec fn area_fits(ps: Seq<Point2>) -> bool {
    forall|k: int| 0 <= k < ps.len() ==> fits128(#[trigger] shoelace_term(ps, k)) && fits128(shoelace_upto(ps, k + 1))
}

/// Twice the signed area of the polygon in ticks², counter-clockwise positive.
pub fn polygon_signed_area2(points: &Vec<Point2>) -> (r: i128)
    requires
        area_fits(points@),
    ensures
        r == signed_area2(points@),
{
    let n = points.len();
    let mut sum: i128 = 0;
    let mut i: usize = 0;
    while i < n
        invariant
            i <= n,
            n == points@.len(),
            area_fits(points@),
            sum == shoelace_upto(points@, i as int),
        decreases n - i,
    {
        let a = points[i];
        let b = points[(i + 1) % n];
        let ax = a.x.ticks as i128;
        let ay = a.y.ticks as i128;
        let bx = b.x.ticks as i128;
        let by = b.y.ticks as i128;
        proof {
            lemma_product_bounds(ax as int, by as int);
            lemma_product_bounds(bx as int, ay as int);
            assert(fits128(shoelace_term(points@, i as int)));
            assert(fits128(shoelace_upto(points@, i as int + 1)));
        }
        sum = sum + (ax * by - bx * ay);
        i = i + 1;
    }
    sum
}

/// The loop wound counter-clockwise: reversed when its signed area is negative.
pub open spec fn counter_clockwise(ps: Seq<Point2>) -> Seq<Point2> {
    if signed_area2(ps) < 0 {
        ps.reverse()
    } else {
        ps
    }
}

/// The reflex vertices among the first `k` of a counter-clockwise loop, in order.
pub open spec fn reflex_upto(o: Seq<Point2>, k: int) -> Seq<Point2>
    decreases k,
{
    if k <= 0 {
        Seq::empty()
    } else {
        let n = o.len() as int;
        let i = k - 1;
        let prev = if i == 0 {
            n - 1
        } else {
            i - 1
        };
        let next = if i + 1 == n {
            0
        } else {
            i + 1
        };
        let rest = reflex_upto(o, k - 1);
        if orient(o[prev], o[i], o[next]) < 0 {
            rest.push(o[i])
        } else {
            rest
        }
    }
}

proof fn lemma_reverse_diffs_fit(ps: Seq<Point2>)
    requires
        diffs_fit(ps),
    ensures
        diffs_fit(ps.reverse()),
{
    let r = ps.reverse();
    assert forall|i: int, j: int| 0 <= i < r.len() && 0 <= j < r.len() implies fits64(
        #[trigger] r[i].x.ticks - #[trigger] r[j].x.ticks,
    ) && fits64(r[i].y.ticks - r[j].y.ticks) by {
        let a = ps.len() - 1 - i;
        let b = ps.len() - 1 - j;
        assert(r[i] == ps[a]);
        assert(r[j] == ps[b]);
        assert(fits64(ps[a].x.ticks - ps[b].x.ticks));
    }
}

/// `points` reversed.
pub(crate) fn reversed(points: &Vec<Point2>) -> (r: Vec<Point2>)
    ensures
        r@ == points@.reverse(),
{
    let n = points.len();
    let mut out: Vec<Point2> = Vec::new();
    let mut i: usize = 0;
    while i < n
        invariant
            i <= n,
            n == points@.len(),
            out@.len() == i,
            forall|k: int| 0 <= k < i ==> out@[k] == points@[n - 1 - k],
        decreases n - i,
    {
        out.push(points[n - 1 - i]);
        i = i + 1;
    }
    assert(out@ =~= points@.reverse());
    out
}

/// The reflex vertices of a simple polygon, after winding it counter-clockwise;
/// none for fewer than four vertices.
pub fn concave_polygon_corners(vertices: &Vec<Point2>) -> (r: Vec<Point2>)
    requires
        diffs_fit(vertices@),
        area_fits(vertices@),
    ensures
        vertices@.len() < 4 ==> r@.len() == 0,
        vertices@.len() >= 4 ==> r@ == reflex_upto(counter_clockwise(vertices@), vertices@.len() as int),
{
    if vertices.len() < 4 {
        return Vec::new();
    }
    let outline = if polygon_signed_area2(vertices) < 0 {
        proof {
            lemma_reverse_diffs_fit(vertices@);
        }
        reversed(vertices)
    } else {
        let mut copy: Vec<Point2> = Vec::new();
        let mut i: usize = 0;
        while i < vertices.len()
            invariant
                i <= vertices@.len(),
                copy@ == vertices@.subrange(0, i as int),
            decreases vertices@.len() - i,
        {
            copy.push(vertices[i]);
            i = i + 1;
        }
        assert(copy@ =~= vertices@);
        copy
    };
    let ghost o = outline@;
    let n = outline.len();
    let mut corners: Vec<Point2> = Vec::new();
    let mut index: usize = 0;
    while index < n
        invariant
            index <= n,
            n == o.len(),
            n >= 4,
            o == outline@,
            diffs_fit(o),
            corners@ == reflex_upto(o, index as int),
        decreases n - index,
    {
        let p = if index == 0 {
            n - 1
        } else {
            index - 1
        };
        let q = if index + 1 == n {
            0
        } else {
            index + 1
        };
        let previous = outline[p];
        let current = outline[index];
        let next = outline[q];
        proof {
            lemma_four_fit(o, p as int, p as int, index as int, q as int);
        }
        if orientation(previous, current, next) < 0 {
            corners.push(current);
        }
        index = index + 1;
    }
    corners
}

// ---------------------------------------------------------------------------
// Triangulation
// ---------------------------------------------------------------------------

/// Three distinct vertex positions below `n`.
pub open spec fn triangle_ok(t: [usize; 3], n: int) -> bool {
    &&& t@[0] < n && t@[1] < n && t@[2] < n
    &&& t@[0] != t@[1] && t@[1] != t@[2] && t@[0] != t@[2]
}

/// `p` lies inside or on counter-clockwise triangle `abc`.
pub open spec fn in_triangle(p: Point2, a: Point2, b: Point2, c: Point2) -> bool {
    orient(a, b, p) >= 0 && orient(b, c, p) >= 0 && orient(c, a, p) >= 0
}

/// Distinct positions below `n`.
pub open spec fn ring_ok(ring: Seq<usize>, n: int) -> bool {
    &&& forall|k: int| 0 <= k < ring.len() ==> (#[trigger] ring[k]) < n
    &&& forall|k1: int, k2: int| 0 <= k1 < ring.len() && 0 <= k2 < ring.len() && k1 != k2 ==> #[trigger] ring[k1] != #[trigger] ring[k2]
}

fn point_in_triangle_ccw(p: Point2, a: Point2, b: Point2, c: Point2) -> (r: bool)
    requires
        diffs_fit(seq![p, a, b, c]),
    ensures
        r == in_triangle(p, a, b, c),
{
    proof {
        let s = seq![p, a, b, c];
        assert(s[0] == p && s[1] == a && s[2] == b && s[3] == c);
        assert(fits64(s[2].x.ticks - s[1].x.ticks) && fits64(s[2].y.ticks - s[1].y.ticks));
        assert(fits64(s[0].x.ticks - s[1].x.ticks) && fits64(s[0].y.ticks - s[1].y.ticks));
        assert(fits64(s[3].x.ticks - s[2].x.ticks) && fits64(s[3].y.ticks - s[2].y.ticks));
        assert(fits64(s[0].x.ticks - s[2].x.ticks) && fits64(s[0].y.ticks - s[2].y.ticks));
        assert(fits64(s[1].x.ticks - s[3].x.ticks) && fits64(s[1].y.ticks - s[3].y.ticks));
        assert(fits64(s[0].x.ticks - s[3].x.ticks) && fits64(s[0].y.ticks - s[3].y.ticks));
    }
    orientation(a, b, p) >= 0 && orientation(b, c, p) >= 0 && orientation(c, a, p) >= 0
}

proof fn lemma_four_fit(ps: Seq<Point2>, i: int, j: int, k: int, l: int)
    requires
        diffs_fit(ps),
        0 <= i < ps.len() && 0 <= j < ps.len() && 0 <= k < ps.len() && 0 <= l < ps.len(),
    ensures
        diffs_fit(seq![ps[i], ps[j], ps[k], ps[l]]),
        triple_fits(ps[j], ps[k], ps[l]),
{
    let s = seq![ps[i], ps[j], ps[k], ps[l]];
    let idx = seq![i, j, k, l];
    assert forall|a: int, b: int| 0 <= a < s.len() && 0 <= b < s.len() implies fits64(
        #[trigger] s[a].x.ticks - #[trigger] s[b].x.ticks,
    ) && fits64(s[a].y.ticks - s[b].y.ticks) by {
        let ia = idx[a];
        let ib = idx[b];
        assert(s[a] == ps[ia]);
        assert(s[b] == ps[ib]);
        assert(fits64(ps[ia].x.ticks - ps[ib].x.ticks) && fits64(ps[ia].y.ticks - ps[ib].y.ticks));
    }
    assert(fits64(ps[k].x.ticks - ps[j].x.ticks));
    assert(fits64(ps[l].x.ticks - ps[j].x.ticks));
    assert(fits64(ps[k].y.ticks - ps[j].y.ticks));
    assert(fits64(ps[l].y.ticks - ps[j].y.ticks));
}

/// The ring position before `i`, wrapping around.
pub open spec fn ring_prev(m: int, i: int) -> int {
    if i == 0 {
        m - 1
    } else {
        i - 1
    }
}

/// The ring position after `i`, wrapping around.
pub open spec fn ring_next(m: int, i: int) -> int {
    if i + 1 == m {
        0
    } else {
        i + 1
    }
}

/// The corner at ring position `i` is an ear: its triangle with its two ring
/// neighbours turns counter-clockwise, and no other remaining vertex lies in
/// it (boundary included).
pub open spec fn ear_at(ps: Seq<Point2>, ring: Seq<usize>, i: int) -> bool {
    let m = ring.len() as int;
    let a = ps[ring[ring_prev(m, i)] as int];
    let b = ps[ring[i] as int];
    let c = ps[ring[ring_next(m, i)] as int];
    &&& orient(a, b, c) > 0
    &&& forall|k: int|
        0 <= k < m && ring[k] != ring[ring_prev(m, i)] && ring[k] != ring[i] && ring[k] != ring[ring_next(m, i)]
            ==> !in_triangle(ps[#[trigger] ring[k] as int], a, b, c)
}

/// Whether the corner at ring position `i` is an ear: convex, with no other
/// remaining vertex in its triangle.
fn is_ear(points: &Vec<Point2>, ring: &Vec<usize>, i: usize) -> (r: bool)
    requires
        diffs_fit(points@),
        ring_ok(ring@, points@.len() as int),
        ring@.len() >= 3,
        i < ring@.len(),
    ensures
        r == ear_at(points@, ring@, i as int),
{
    let m = ring.len();
    let prev = ring[if i == 0 {
        m - 1
    } else {
        i - 1
    }];
    let cur = ring[i];
    let next = ring[if i + 1 == m {
        0
    } else {
        i + 1
    }];
    let a = points[prev];
    let b = points[cur];
    let c = points[next];
    proof {
        lemma_four_fit(points@, prev as int, prev as int, cur as int, next as int);
    }
    if orientation(a, b, c) <= 0 {
        return false;
    }
    let mut k: usize = 0;
    while k < m
        invariant
            k <= m,
            m == ring@.len(),
            diffs_fit(points@),
            ring_ok(ring@, points@.len() as int),
            prev < points@.len() && cur < points@.len() && next < points@.len(),
            a == points@[prev as int] && b == points@[cur as int] && c == points@[next as int],
            prev == ring@[ring_prev(m as int, i as int)],
            cur == ring@[i as int],
            next == ring@[ring_next(m as int, i as int)],
            orient(a, b, c) > 0,
            forall|t: int|
                0 <= t < k && ring@[t] != prev && ring@[t] != cur && ring@[t] != next ==> !in_triangle(
                    points@[#[trigger] ring@[t] as int],
                    a,
                    b,
                    c,
                ),
        decreases m - k,
    {
        let j = ring[k];
        if j != prev && j != cur && j != next {
            proof {
                lemma_four_fit(points@, j as int, prev as int, cur as int, next as int);
            }
            if point_in_triangle_ccw(points[j], a, b, c) {
                return false;
            }
        }
        k = k + 1;
    }
    true
}

proof fn lemma_ring_remove(ring: Seq<usize>, n: int, i: int)
    requires
        ring_ok(ring, n),
        0 <= i < ring.len(),
    ensures
        ring_ok(ring.remove(i), n),
{
    let r = ring.remove(i);
    assert forall|k: int| 0 <= k < r.len() implies (#[trigger] r[k]) < n by {
        if k < i {
            assert(r[k] == ring[k]);
        } else {
            assert(r[k] == ring[k + 1]);
        }
    }
    assert forall|k1: int, k2: int| 0 <= k1 < r.len() && 0 <= k2 < r.len() && k1 != k2 implies #[trigger] r[k1]
        != #[trigger] r[k2] by {
        let o1 = if k1 < i {
            k1
        } else {
            k1 + 1
        };
        let o2 = if k2 < i {
            k2
        } else {
            k2 + 1
        };
        assert(r[k1] == ring[o1]);
        assert(r[k2] == ring[o2]);
    }
}

/// The polygon's vertex positions in counter-clockwise order: as given, or
/// reversed when the given order is clockwise.
pub open spec fn ccw_ring(ps: Seq<Point2>) -> Seq<usize> {
    let n = ps.len() as int;
    Seq::new(
        ps.len(),
        |k: int|
            if signed_area2(ps) < 0 {
                (n - 1 - k) as usize
            } else {
                k as usize
            },
    )
}

/// `rest` is the subsequence of `ring` at the strictly increasing positions `idx`.
pub open spec fn subsequence_at(rest: Seq<usize>, ring: Seq<usize>, idx: Seq<int>) -> bool {
    &&& idx.len() == rest.len()
    &&& forall|j: int| 0 <= j < idx.len() ==> 0 <= #[trigger] idx[j] < ring.len() && rest[j] == ring[idx[j]]
    &&& forall|j1: int, j2: int| 0 <= j1 < j2 < idx.len() ==> #[trigger] idx[j1] < #[trigger] idx[j2]
}

/// What ear clipping reports: the first `f` triangles are ears, each
/// counter-clockwise; and if any triangles follow, `rest` (the ring left after
/// clipping the middle vertices of those `f`, in counter-clockwise order) has
/// no ear left.
pub open spec fn clip_report(ps: Seq<Point2>, ts: Seq<[usize; 3]>, f: int, rest: Seq<usize>, idx: Seq<int>) -> bool {
    &&& 0 <= f <= ts.len()
    &&& forall|t: int| 0 <= t < f ==> orient(ps[(#[trigger] ts[t])@[0] as int], ps[ts[t]@[1] as int], ps[ts[t]@[2] as int]) > 0
    &&& f < ts.len() ==> {
        &&& subsequence_at(rest, ccw_ring(ps), idx)
        &&& forall|v: usize| #[trigger] rest.contains(v) <==> (ccw_ring(ps).contains(v) && forall|t: int| 0 <= t < f ==> (#[trigger] ts[t])@[1] != v)
        &&& rest.len() >= 3
        &&& forall|i: int| 0 <= i < rest.len() ==> !#[trigger] ear_at(ps, rest, i)
    }
}

proof fn lemma_orient_cyclic(a: Point2, b: Point2, c: Point2)
    ensures
        orient(a, b, c) == orient(b, c, a),
        orient(a, b, c) == orient(c, a, b),
{
    let (ax, ay, bx, by, cx, cy) = (a.x.ticks as int, a.y.ticks as int, b.x.ticks as int, b.y.ticks as int, c.x.ticks as int, c.y.ticks as int);
    assert((bx - ax) * (cy - ay) - (by - ay) * (cx - ax) == (cx - bx) * (ay - by) - (cy - by) * (ax - bx)) by (nonlinear_arith);
    assert((bx - ax) * (cy - ay) - (by - ay) * (cx - ax) == (ax - cx) * (by - cy) - (ay - cy) * (bx - cx)) by (nonlinear_arith);
}

/// Triangulates a simple polygon by ear clipping, as index triples into
/// `points`: none for fewer than three points, and otherwise exactly `n − 2`
/// triangles of three distinct vertices each. A remainder with no ear left
/// (over-collinear) is fanned, so the clipping always ends.
#[verifier::rlimit(100)]
pub fn triangulate_simple_polygon(points: &Vec<Point2>) -> (r: Vec<[usize; 3]>)
    requires
        diffs_fit(points@),
        area_fits(points@),
    ensures
        points@.len() < 3 ==> r@.len() == 0,
        points@.len() == 3 ==> r@.len() == 1 && r@[0]@ == seq![0usize, 1, 2],
        points@.len() >= 3 ==> r@.len() == points@.len() - 2,
        forall|t: int| 0 <= t < r@.len() ==> triangle_ok(#[trigger] r@[t], points@.len() as int),
        points@.len() >= 3 ==> triangles_area2(points@, r@) == triangulated_area2(points@),
        points@.len() > 3 ==> exists|f: int, rest: Seq<usize>, idx: Seq<int>| #[trigger] clip_report(points@, r@, f, rest, idx),
{
    let n = points.len();
    if n < 3 {
        return Vec::new();
    }
    if n == 3 {
        let mut one: Vec<[usize; 3]> = Vec::new();
        let t: [usize; 3] = [0, 1, 2];
        assert(t@ =~= seq![0usize, 1, 2]);
        one.push(t);
        proof {
            lemma_triangles_area_push(points@, Seq::empty(), t);
            assert(one@ =~= Seq::<[usize; 3]>::empty().push(t));
            lemma_triangle_area(points@[0], points@[1], points@[2]);
            assert(points@ =~= seq![points@[0], points@[1], points@[2]]);
        }
        return one;
    }
    let reverse = polygon_signed_area2(points) < 0;
    let mut ring: Vec<usize> = Vec::new();
    let mut i: usize = 0;
    while i < n
        invariant
            i <= n,
            ring@.len() == i,
            forall|k: int| 0 <= k < i ==> ring@[k] == if reverse {
                n - 1 - k
            } else {
                k
            },
        decreases n - i,
    {
        if reverse {
            ring.push(n - 1 - i);
        } else {
            ring.push(i);
        }
        i = i + 1;
    }
    let mut triangles: Vec<[usize; 3]> = Vec::new();
    let ghost mut idx: Seq<int> = Seq::new(n as nat, |k: int| k);
    proof {
        assert(ring@ =~= ccw_ring(points@));
        if reverse {
            assert(ring_polygon(points@, ring@) =~= points@.reverse());
            lemma_reverse_area(points@);
        } else {
            assert(ring_polygon(points@, ring@) =~= points@);
        }
    }
    while ring.len() > 3
        invariant
            n == points@.len(),
            n > 3,
            diffs_fit(points@),
            ring_ok(ring@, n as int),
            ring@.len() >= 3,
            triangles@.len() + ring@.len() == n,
            forall|t: int| 0 <= t < triangles@.len() ==> triangle_ok(#[trigger] triangles@[t], n as int),
            triangles_area2(points@, triangles@) + signed_area2(ring_polygon(points@, ring@)) == triangulated_area2(points@),
            subsequence_at(ring@, ccw_ring(points@), idx),
            forall|v: usize| #[trigger] ring@.contains(v) <==> (ccw_ring(points@).contains(v) && forall|t: int|
                0 <= t < triangles@.len() ==> (#[trigger] triangles@[t])@[1] != v),
            forall|t: int| 0 <= t < triangles@.len() ==> orient(points@[(#[trigger] triangles@[t])@[0] as int], points@[triangles@[t]@[1] as int], points@[triangles@[t]@[2] as int]) > 0,
        decreases ring@.len(),
    {
        let m = ring.len();
        let mut ear: Option<usize> = None;
        let mut i: usize = 0;
        while i < m && ear.is_none()
            invariant
                i <= m,
                m == ring@.len(),
                m >= 3,
                diffs_fit(points@),
                ring_ok(ring@, n as int),
                n == points@.len(),
                ear matches Some(e) ==> e < m && ear_at(points@, ring@, e as int),
                ear is None ==> forall|k: int| 0 <= k < i ==> !#[trigger] ear_at(points@, ring@, k),
            decreases m - i,
        {
            if is_ear(points, &ring, i) {
                ear = Some(i);
            }
            i = i + 1;
        }
        match ear {
            Some(i) => {
                let pi = if i == 0 {
                    m - 1
                } else {
                    i - 1
                };
                let ni = if i + 1 == m {
                    0
                } else {
                    i + 1
                };
                let prev = ring[pi];
                let cur = ring[i];
                let next = ring[ni];
                let t: [usize; 3] = [prev, cur, next];
                proof {
                    assert(t@ =~= seq![prev, cur, next]);
                    assert(pi != i && ni != i && pi != ni);
                }
                let ghost before = triangles@;
                let ghost rb = ring@;
                triangles.push(t);
                proof {
                    assert(ear_at(points@, ring@, i as int));
                    assert(orient(points@[prev as int], points@[cur as int], points@[next as int]) > 0);
                    lemma_ring_remove(ring@, n as int, i as int);
                    lemma_triangles_area_push(points@, before, t);
                    let rp = ring_polygon(points@, ring@);
                    lemma_cut_vertex_area(rp, i as int);
                    assert(ring_polygon(points@, ring@.remove(i as int)) =~= rp.remove(i as int));
                }
                ring.remove(i);
                proof {
                    let ib = idx;
                    idx = idx.remove(i as int);
                    assert forall|j: int| 0 <= j < idx.len() implies 0 <= #[trigger] idx[j] < ccw_ring(points@).len() && ring@[j] == ccw_ring(points@)[idx[j]] by {
                        if j < i {
                            assert(idx[j] == ib[j]);
                            assert(ring@[j] == rb[j]);
                        } else {
                            assert(idx[j] == ib[j + 1]);
                            assert(ring@[j] == rb[j + 1]);
                        }
                    }
                    assert forall|j1: int, j2: int| 0 <= j1 < j2 < idx.len() implies #[trigger] idx[j1] < #[trigger] idx[j2] by {
                        let o1 = if j1 < i { j1 } else { j1 + 1 };
                        let o2 = if j2 < i { j2 } else { j2 + 1 };
                        assert(idx[j1] == ib[o1]);
                        assert(idx[j2] == ib[o2]);
                    }
                    assert forall|v: usize| #[trigger] ring@.contains(v) <==> (ccw_ring(points@).contains(v) && forall|tt: int|
                        0 <= tt < triangles@.len() ==> (#[trigger] triangles@[tt])@[1] != v) by {
                        if ring@.contains(v) {
                            let j = choose|j: int| 0 <= j < ring@.len() && ring@[j] == v;
                            let o = if j < i { j } else { j + 1 };
                            assert(rb[o] == v);
                            assert(rb.contains(v));
                            assert(o != i);
                            assert(v != cur);
                            assert forall|tt: int| 0 <= tt < triangles@.len() implies (#[trigger] triangles@[tt])@[1] != v by {
                                if tt < before.len() {
                                    assert(triangles@[tt] == before[tt]);
                                } else {
                                    assert(triangles@[tt] == t);
                                }
                            }
                        }
                        if ccw_ring(points@).contains(v) && forall|tt: int| 0 <= tt < triangles@.len() ==> (#[trigger] triangles@[tt])@[1] != v {
                            assert forall|tt: int| 0 <= tt < before.len() implies (#[trigger] before[tt])@[1] != v by {
                                assert(triangles@[tt] == before[tt]);
                            }
                            assert(rb.contains(v));
                            let j = choose|j: int| 0 <= j < rb.len() && rb[j] == v;
                            assert(triangles@[before.len() as int] == t);
                            assert(v != cur);
                            assert(j != i);
                            let j2 = if j < i { j } else { j - 1 };
                            assert(ring@[j2] == v);
                        }
                    }
                    assert forall|tt: int| 0 <= tt < triangles@.len() implies orient(points@[(#[trigger] triangles@[tt])@[0] as int], points@[triangles@[tt]@[1] as int], points@[triangles@[tt]@[2] as int]) > 0 by {
                        if tt < before.len() {
                            assert(triangles@[tt] == before[tt]);
                        } else {
                            assert(triangles@[tt] == t);
                        }
                    }
                }
            },
            None => {
                let ghost f = triangles@.len() as int;
                let ghost rest = ring@;
                let ghost ridx = idx;
                let ghost tri0 = triangles@;
                let mut k: usize = 1;
                proof {
                    assert(seq![ring@[0]] + ring@.subrange(1, m as int) =~= ring@);
                }
                while k + 1 < ring.len()
                    invariant
                        1 <= k < ring@.len(),
                        ring@.len() == m,
                        m > 3,
                        n == points@.len(),
                        ring_ok(ring@, n as int),
                        triangles@.len() + m + 1 == n + k,
                        forall|t: int| 0 <= t < triangles@.len() ==> triangle_ok(#[trigger] triangles@[t], n as int),
                        triangles_area2(points@, triangles@) + signed_area2(
                            ring_polygon(points@, seq![ring@[0]] + ring@.subrange(k as int, m as int)),
                        ) == triangulated_area2(points@),
                        f == tri0.len(),
                        triangles@.len() >= f,
                        forall|tt: int| 0 <= tt < f ==> #[trigger] triangles@[tt] == tri0[tt],
                        rest == ring@,
                        k > 1 ==> triangles@.len() > f,
                    decreases m - k,
                {
                    let t: [usize; 3] = [ring[0], ring[k], ring[k + 1]];
                    proof {
                        assert(t@ =~= seq![ring@[0], ring@[k as int], ring@[k + 1]]);
                        assert(ring@[0] != ring@[k as int]);
                        assert(ring@[k as int] != ring@[k + 1]);
                        assert(ring@[0] != ring@[k + 1]);
                    }
                    let ghost before = triangles@;
                    triangles.push(t);
                    proof {
                        lemma_triangles_area_push(points@, before, t);
                        let g = seq![ring@[0]] + ring@.subrange(k as int, m as int);
                        let gp = ring_polygon(points@, g);
                        lemma_cut_vertex_area(gp, 1);
                        assert(g.remove(1) =~= seq![ring@[0]] + ring@.subrange(k + 1, m as int));
                        assert(ring_polygon(points@, g.remove(1)) =~= gp.remove(1));
                    }
                    k = k + 1;
                }
                proof {
                    let g = seq![ring@[0]] + ring@.subrange(k as int, m as int);
                    assert(ring_polygon(points@, g) =~= seq![points@[ring@[0] as int], points@[ring@[k as int] as int]]);
                    lemma_segment_area(points@[ring@[0] as int], points@[ring@[k as int] as int]);
                    assert forall|v: usize| #[trigger] rest.contains(v) <==> (ccw_ring(points@).contains(v) && forall|tt: int|
                        0 <= tt < f ==> (#[trigger] triangles@[tt])@[1] != v) by {
                        assert forall|tt: int| 0 <= tt < f implies #[trigger] triangles@[tt] == tri0[tt] by {}
                        if ccw_ring(points@).contains(v) && forall|tt: int| 0 <= tt < f ==> (#[trigger] triangles@[tt])@[1] != v {
                            assert forall|tt: int| 0 <= tt < tri0.len() implies (#[trigger] tri0[tt])@[1] != v by {
                                assert(triangles@[tt] == tri0[tt]);
                            }
                        }
                        if rest.contains(v) {
                            assert forall|tt: int| 0 <= tt < f implies (#[trigger] triangles@[tt])@[1] != v by {
                                assert(triangles@[tt] == tri0[tt]);
                                assert(tri0[tt]@[1] != v);
                            }
                        }
                    }
                    assert forall|tt: int| 0 <= tt < f implies orient(points@[(#[trigger] triangles@[tt])@[0] as int], points@[triangles@[tt]@[1] as int], points@[triangles@[tt]@[2] as int]) > 0 by {
                        assert(triangles@[tt] == tri0[tt]);
                    }
                    assert(clip_report(points@, triangles@, f, rest, ridx));
                }
                return triangles;
            },
        }
    }
    let t: [usize; 3] = [ring[0], ring[1], ring[2]];
    proof {
        assert(t@ =~= seq![ring@[0], ring@[1], ring@[2]]);
        assert(ring@[0] != ring@[1]);
        assert(ring@[1] != ring@[2]);
        assert(ring@[0] != ring@[2]);
    }
    let ghost before = triangles@;
    triangles.push(t);
    proof {
        lemma_triangles_area_push(points@, before, t);
        let (a, b, c) = (points@[ring@[0] as int], points@[ring@[1] as int], points@[ring@[2] as int]);
        assert(ring_polygon(points@, ring@) =~= seq![a, b, c]);
        lemma_triangle_area(a, b, c);
        assert(triangles@[before.len() as int] == t);
        assert forall|tt: int| 0 <= tt < before.len() implies #[trigger] triangles@[tt] == before[tt] by {}
        if orient(a, b, c) > 0 {
            assert forall|tt: int| 0 <= tt < triangles@.len() implies orient(points@[(#[trigger] triangles@[tt])@[0] as int], points@[triangles@[tt]@[1] as int], points@[triangles@[tt]@[2] as int]) > 0 by {
                if tt < before.len() {
                    assert(triangles@[tt] == before[tt]);
                }
            }
            assert(clip_report(points@, triangles@, triangles@.len() as int, ring@, idx));
        } else {
            lemma_orient_cyclic(a, b, c);
            assert forall|i2: int| 0 <= i2 < ring@.len() implies !#[trigger] ear_at(points@, ring@, i2) by {}
            assert forall|v: usize| #[trigger] ring@.contains(v) <==> (ccw_ring(points@).contains(v) && forall|tt: int|
                0 <= tt < before.len() ==> (#[trigger] triangles@[tt])@[1] != v) by {
                assert forall|tt: int| 0 <= tt < before.len() implies #[trigger] triangles@[tt] == before[tt] by {}
                if ccw_ring(points@).contains(v) && forall|tt: int| 0 <= tt < before.len() ==> (#[trigger] triangles@[tt])@[1] != v {
                    assert forall|tt: int| 0 <= tt < before.len() implies (#[trigger] before[tt])@[1] != v by {
                        assert(triangles@[tt] == before[tt]);
                    }
                }
                if ring@.contains(v) {
                    assert forall|tt: int| 0 <= tt < before.len() implies (#[trigger] triangles@[tt])@[1] != v by {
                        assert(triangles@[tt] == before[tt]);
                        assert(before[tt]@[1] != v);
                    }
                }
            }
            assert forall|tt: int| 0 <= tt < before.len() implies orient(points@[(#[trigger] triangles@[tt])@[0] as int], points@[triangles@[tt]@[1] as int], points@[triangles@[tt]@[2] as int]) > 0 by {
                assert(triangles@[tt] == before[tt]);
            }
            assert(clip_report(points@, triangles@, before.len() as int, ring@, idx));
        }
    }
    triangles
}

// ---------------------------------------------------------------------------
// Point in polygon
// ---------------------------------------------------------------------------

/// The horizontal ray from `p` to the right crosses edge `a`–`b` (the edge
/// spans `p`'s height, half-open, and meets the ray strictly right of `p`).
pub open spec fn ray_crosses(p: Point2, a: Point2, b: Point2) -> bool {
    let dy = b.y.ticks - a.y.ticks;
    let lhs = (p.x.ticks - a.x.ticks) * dy;
    let rhs = (b.x.ticks - a.x.ticks) * (p.y.ticks - a.y.ticks);
    &&& (a.y.ticks > p.y.ticks) != (b.y.ticks > p.y.ticks)
    &&& if dy > 0 {
        lhs < rhs
    } else {
        lhs > rhs
    }
}

/// Whether an odd number of the first `k` edges (each vertex with the one
/// before it) cross the ray from `p`.
pub open spec fn odd_crossings(p: Point2, vs: Seq<Point2>, k: int) -> bool
    decreases k,
{
    if k <= 0 {
        false
    } else {
        let n = vs.len() as int;
        let i = k - 1;
        let j = if i == 0 {
            n - 1
        } else {
            i - 1
        };
        odd_crossings(p, vs, k - 1) != ray_crosses(p, vs[i], vs[j])
    }
}

/// The even-odd rule: `p` is inside when the ray from it crosses the
/// polygon's edges an odd number of times.
pub open spec fn inside_polygon(p: Point2, vs: Seq<Point2>) -> bool {
    vs.len() >= 3 && odd_crossings(p, vs, vs.len() as int)
}

/// Even-odd point-in-polygon test, exact on ticks; a polygon of fewer than
/// three vertices encloses nothing.
pub fn point_in_polygon(point: Point2, vertices: &Vec<Point2>) -> (r: bool)
    requires
        diffs_fit(vertices@.push(point)),
    ensures
        r == inside_polygon(point, vertices@),
{
    let n = vertices.len();
    if n < 3 {
        return false;
    }
    let ghost all = vertices@.push(point);
    let mut inside = false;
    let mut j: usize = n - 1;
    let mut i: usize = 0;
    while i < n
        invariant
            i <= n,
            n == vertices@.len(),
            n >= 3,
            all == vertices@.push(point),
            diffs_fit(all),
            j == if i == 0 {
                n - 1
            } else {
                i - 1
            },
            inside == odd_crossings(point, vertices@, i as int),
        decreases n - i,
    {
        let a = vertices[i];
        let b = vertices[j];
        proof {
            assert(all[i as int] == a && all[j as int] == b && all[n as int] == point);
            assert(fits64(all[n as int].x.ticks - all[i as int].x.ticks));
            assert(fits64(all[j as int].x.ticks - all[i as int].x.ticks));
            assert(fits64(all[j as int].y.ticks - all[i as int].y.ticks));
            assert(fits64(all[n as int].y.ticks - all[i as int].y.ticks));
        }
        let dy = (b.y.ticks - a.y.ticks) as i128;
        let ox = (point.x.ticks - a.x.ticks) as i128;
        let ex = (b.x.ticks - a.x.ticks) as i128;
        let oy = (point.y.ticks - a.y.ticks) as i128;
        proof {
            lemma_product_bounds(ox as int, dy as int);
            lemma_product_bounds(ex as int, oy as int);
        }
        let lhs = ox * dy;
        let rhs = ex * oy;
        let spans = (a.y.ticks > point.y.ticks) != (b.y.ticks > point.y.ticks);
        let crosses = spans && if dy > 0 {
            lhs < rhs
        } else {
            lhs > rhs
        };
        if crosses {
            inside = !inside;
        }
        j = i;
        i = i + 1;
    }
    inside
}

} // verus!

verus! {

/// Whether an odd number of the edges between consecutive vertices among the
/// first `k` (each vertex `1 .. k` with the one before it) cross the ray from
/// `p`: the open chain, without the closing edge.
pub open spec fn chain_crossings_odd(p: Point2, vs: Seq<Point2>, k: int) -> bool
    decreases k,
{
    if k <= 1 {
        false
    } else {
        chain_crossings_odd(p, vs, k - 1) != ray_crosses(p, vs[k - 1], vs[k - 2])
    }
}

/// The crossing parity of the first `k` edges is that of the closing edge
/// (first vertex with last) together with the open chain.
proof fn lemma_odd_crossings_chain(p: Point2, vs: Seq<Point2>, k: int)
    requires
        1 <= k <= vs.len(),
    ensures
        odd_crossings(p, vs, k) == (ray_crosses(p, vs[0], vs[vs.len() - 1]) != chain_crossings_odd(p, vs, k)),
    decreases k,
{
    assert(!odd_crossings(p, vs, 0));
    assert(!chain_crossings_odd(p, vs, 1));
    if k > 1 {
        lemma_odd_crossings_chain(p, vs, k - 1);
    }
}

/// The open chain of the vertex list rotated by one is the chain of the
/// original from its second vertex on.
proof fn lemma_rotated_chain(p: Point2, vs: Seq<Point2>, k: int)
    requires
        2 <= vs.len(),
        1 <= k <= vs.len() - 1,
    ensures
        chain_crossings_odd(p, vs.subrange(1, vs.len() as int).push(vs[0]), k) == (ray_crosses(p, vs[1], vs[0])
            != chain_crossings_odd(p, vs, k + 1)),
    decreases k,
{
    let ws = vs.subrange(1, vs.len() as int).push(vs[0]);
    if k > 1 {
        lemma_rotated_chain(p, vs, k - 1);
        assert(ws[k - 1] == vs[k] && ws[k - 2] == vs[k - 1]);
    }
    assert(!chain_crossings_odd(p, vs, 1));
    assert(!chain_crossings_odd(p, ws, 1));
    assert(chain_crossings_odd(p, vs, 2) == ray_crosses(p, vs[1], vs[0]));
}

/// Point-in-polygon does not depend on which vertex the polygon's vertex list
/// starts at: moving the first vertex to the end leaves the answer unchanged,
/// since every edge of the closed polygon, the closing one included, counts.
pub proof fn lemma_inside_polygon_rotation(p: Point2, vs: Seq<Point2>)
    requires
        vs.len() >= 1,
    ensures
        inside_polygon(p, vs.subrange(1, vs.len() as int).push(vs[0])) == inside_polygon(p, vs),
{
    let n = vs.len() as int;
    let ws = vs.subrange(1, n).push(vs[0]);
    assert(ws.len() == n);
    if n >= 3 {
        lemma_odd_crossings_chain(p, vs, n);
        lemma_odd_crossings_chain(p, ws, n);
        lemma_rotated_chain(p, vs, n - 1);
        assert(ws[0] == vs[1] && ws[n - 1] == vs[0] && ws[n - 2] == vs[n - 1]);
        assert(chain_crossings_odd(p, ws, n) == (chain_crossings_odd(p, ws, n - 1) != ray_crosses(p, vs[0], vs[n - 1])));
    }
}


/// The edge from `a` to `b` never crosses the ray from `p` when `p` is level
/// with or above both ends, below both, or right of (or level with) both.
proof fn lemma_edge_misses(p: Point2, a: Point2, b: Point2)
    requires
        (a.y.ticks <= p.y.ticks && b.y.ticks <= p.y.ticks) || (a.y.ticks > p.y.ticks && b.y.ticks > p.y.ticks) || (
        a.x.ticks <= p.x.ticks && b.x.ticks <= p.x.ticks),
    ensures
        !ray_crosses(p, a, b),
{
    let (px, py, ax, ay, bx, by_) = (p.x.ticks as int, p.y.ticks as int, a.x.ticks as int, a.y.ticks as int, b.x.ticks as int, b.y.ticks as int);
    let dy = by_ - ay;
    if (ay > py) != (by_ > py) && ax <= px && bx <= px {
        if dy > 0 {
            assert((px - ax) * dy >= (bx - ax) * (py - ay)) by (nonlinear_arith)
                requires
                    dy > 0,
                    0 <= py - ay < dy,
                    px - ax >= bx - ax,
                    px - ax >= 0,
            ;
        } else {
            assert((px - ax) * dy <= (bx - ax) * (py - ay)) by (nonlinear_arith)
                requires
                    dy < 0,
                    dy <= py - ay < 0,
                    px - ax >= bx - ax,
                    px - ax >= 0,
            ;
        }
    }
}

/// When no edge among the first `k` crosses the ray, the crossing count is even.
proof fn lemma_no_crossings(p: Point2, vs: Seq<Point2>, k: int)
    requires
        k <= vs.len(),
        forall|i: int| 0 <= i < k ==> !ray_crosses(p, #[trigger] vs[i], vs[if i == 0 { vs.len() - 1 } else { i - 1 }]),
    ensures
        !odd_crossings(p, vs, k),
    decreases k,
{
    if k > 0 {
        lemma_no_crossings(p, vs, k - 1);
        assert(!ray_crosses(p, vs[k - 1], vs[if k - 1 == 0 { vs.len() - 1 } else { k - 2 }]));
    }
}

/// A point level with or above every vertex, below every vertex, or right of
/// (or level with) every vertex is not inside the polygon.
pub proof fn lemma_outside_bounds(p: Point2, vs: Seq<Point2>)
    requires
        (forall|i: int| 0 <= i < vs.len() ==> (#[trigger] vs[i]).y.ticks <= p.y.ticks) || (forall|i: int|
            0 <= i < vs.len() ==> (#[trigger] vs[i]).y.ticks > p.y.ticks) || (forall|i: int|
            0 <= i < vs.len() ==> (#[trigger] vs[i]).x.ticks <= p.x.ticks),
    ensures
        !inside_polygon(p, vs),
{
    let n = vs.len() as int;
    assert forall|i: int| 0 <= i < n implies !ray_crosses(p, #[trigger] vs[i], vs[if i == 0 { n - 1 } else { i - 1 }]) by {
        let j = if i == 0 { n - 1 } else { i - 1 };
        assert(0 <= j < n);
        let (a, b) = (vs[i], vs[j]);
        lemma_edge_misses(p, a, b);
    }
    lemma_no_crossings(p, vs, n);
}

/// The axis-aligned rectangle with corners `(x0, y0)` and `(x1, y1)`, counter-clockwise.
pub open spec fn rectangle(x0: i64, y0: i64, x1: i64, y1: i64) -> Seq<Point2> {
    seq![
        Point2 { x: Length { ticks: x0 }, y: Length { ticks: y0 } },
        Point2 { x: Length { ticks: x1 }, y: Length { ticks: y0 } },
        Point2 { x: Length { ticks: x1 }, y: Length { ticks: y1 } },
        Point2 { x: Length { ticks: x0 }, y: Length { ticks: y1 } },
    ]
}

/// Every point strictly inside an axis-aligned rectangle is inside it.
pub proof fn lemma_inside_rectangle(p: Point2, x0: i64, y0: i64, x1: i64, y1: i64)
    requires
        x0 < p.x.ticks < x1,
        y0 < p.y.ticks < y1,
    ensures
        inside_polygon(p, rectangle(x0, y0, x1, y1)),
{
    let vs = rectangle(x0, y0, x1, y1);
    let (px, py) = (p.x.ticks as int, p.y.ticks as int);
    assert((px - x0) * (y1 - y0) > 0) by (nonlinear_arith)
        requires
            px - x0 > 0,
            y1 - y0 > 0,
    ;
    assert((px - x1) * (y0 - y1) > 0) by (nonlinear_arith)
        requires
            px - x1 < 0,
            y0 - y1 < 0,
    ;
    let c0 = Point2 { x: Length { ticks: x0 }, y: Length { ticks: y0 } };
    let c1 = Point2 { x: Length { ticks: x1 }, y: Length { ticks: y0 } };
    let c2 = Point2 { x: Length { ticks: x1 }, y: Length { ticks: y1 } };
    let c3 = Point2 { x: Length { ticks: x0 }, y: Length { ticks: y1 } };
    assert(vs[0] == c0 && vs[1] == c1 && vs[2] == c2 && vs[3] == c3 && vs.len() == 4);
    assert((x0 - x0) * (py - y0) == 0);
    assert((x1 - x1) * (py - y1) == 0);
    assert(!ray_crosses(p, c0, c3));
    assert(!ray_crosses(p, c1, c0));
    assert(ray_crosses(p, c2, c1));
    assert(!ray_crosses(p, c3, c2));
    assert(!ray_crosses(p, vs[0], vs[3]));
    assert(!ray_crosses(p, vs[1], vs[0]));
    assert(ray_crosses(p, vs[2], vs[1]));
    assert(!ray_crosses(p, vs[3], vs[2]));
    reveal_with_fuel(odd_crossings, 5);
}

} // verus!
