//! The perimeter footprint of a level: when the level's walls form exactly one
//! simple closed loop (every corner joins exactly two walls, no loose ends, no
//! partitions), that loop, wound counter-clockwise.

use vstd::prelude::*;

use vstd::arithmetic::div_mod::lemma_small_mod;

use crate::element::ElementId;
use crate::model::BuildingModel;
use crate::topology::{area_fits, fits128, polygon_signed_area2, reversed, shoelace_term, shoelace_upto, signed_area2};
use crate::units::Point2;
use crate::wall::Wall;

verus! {

/// `a` comes before `b` by x, then by y.
pub open spec fn pt_less(a: Point2, b: Point2) -> bool {
    a.x.ticks < b.x.ticks || (a.x.ticks == b.x.ticks && a.y.ticks < b.y.ticks)
}

/// A wall of the level that is more than a point.
pub open spec fn level_segment(w: Wall, level: Seq<char>) -> bool {
    w.level@ == level && w.start != w.end
}

/// Wall `w` of the level runs between `a` and `b`.
pub open spec fn edge_by(w: Wall, level: Seq<char>, a: Point2, b: Point2) -> bool {
    level_segment(w, level) && ((w.start == a && w.end == b) || (w.start == b && w.end == a))
}

/// Wall `w` of the level ends at `p`.
pub open spec fn touches(w: Wall, level: Seq<char>, p: Point2) -> bool {
    level_segment(w, level) && (w.start == p || w.end == p)
}

/// One of the first `k` walls of the level runs between `a` and `b`.
pub open spec fn edge_upto(walls: Seq<Wall>, level: Seq<char>, k: int, a: Point2, b: Point2) -> bool {
    exists|i: int| 0 <= i < k && #[trigger] edge_by(walls[i], level, a, b)
}

/// One of the first `k` walls of the level ends at `p`.
pub open spec fn corner_upto(walls: Seq<Wall>, level: Seq<char>, k: int, p: Point2) -> bool {
    exists|i: int| 0 <= i < k && #[trigger] touches(walls[i], level, p)
}

pub open spec fn level_edge(walls: Seq<Wall>, level: Seq<char>, a: Point2, b: Point2) -> bool {
    edge_upto(walls, level, walls.len() as int, a, b)
}

pub open spec fn corner(walls: Seq<Wall>, level: Seq<char>, p: Point2) -> bool {
    corner_upto(walls, level, walls.len() as int, p)
}

/// The point after `pts[i]` around the loop.
pub open spec fn succ(pts: Seq<Point2>, i: int) -> Point2 {
    if i + 1 < pts.len() {
        pts[i + 1]
    } else {
        pts[0]
    }
}

/// The point before `pts[i]` around the loop.
pub open spec fn pred(pts: Seq<Point2>, i: int) -> Point2 {
    if i > 0 {
        pts[i - 1]
    } else {
        pts[pts.len() - 1]
    }
}

/// `pts` is the level's wall graph as one simple closed loop: distinct
/// corners, each joined by a wall to the next, every corner of the level on
/// it, and no wall at a corner but the two to its neighbours on the loop.
pub open spec fn wall_loop(walls: Seq<Wall>, level: Seq<char>, pts: Seq<Point2>) -> bool {
    &&& pts.len() >= 3
    &&& pts.no_duplicates()
    &&& forall|i: int| 0 <= i < pts.len() ==> level_edge(walls, level, pts[i], #[trigger] succ(pts, i))
    &&& forall|p: Point2| corner(walls, level, p) ==> pts.contains(p)
    &&& forall|i: int, q: Point2|
        0 <= i < pts.len() && #[trigger] level_edge(walls, level, pts[i], q) ==> q == succ(pts, i) || q == pred(
            pts,
            i,
        )
}

proof fn lemma_edge_symmetric(walls: Seq<Wall>, level: Seq<char>, a: Point2, b: Point2)
    requires
        level_edge(walls, level, a, b),
    ensures
        level_edge(walls, level, b, a),
        corner(walls, level, a),
        corner(walls, level, b),
        a != b,
{
    let i = choose|i: int| 0 <= i < walls.len() && #[trigger] edge_by(walls[i], level, a, b);
    assert(edge_by(walls[i], level, b, a));
    assert(touches(walls[i], level, a));
    assert(touches(walls[i], level, b));
}

/// On a loop, both neighbours of a corner are joined to it, and they differ.
proof fn lemma_loop_neighbours(walls: Seq<Wall>, level: Seq<char>, pts: Seq<Point2>, i: int)
    requires
        wall_loop(walls, level, pts),
        0 <= i < pts.len(),
    ensures
        level_edge(walls, level, pts[i], succ(pts, i)),
        level_edge(walls, level, pts[i], pred(pts, i)),
        succ(pts, i) != pred(pts, i),
        succ(pts, i) != pts[i],
{
    let n = pts.len() as int;
    let j = if i > 0 {
        i - 1
    } else {
        n - 1
    };
    assert(succ(pts, j) == pts[i]);
    assert(level_edge(walls, level, pts[j], succ(pts, j)));
    lemma_edge_symmetric(walls, level, pts[j], pts[i]);
    assert(pred(pts, i) == pts[j]);
    let k = if i + 1 < n {
        i + 1
    } else {
        0
    };
    assert(succ(pts, i) == pts[k]);
    assert(k != j);
    assert(k != i);
}

/// A corner of the level's loop has exactly two neighbours.
proof fn lemma_loop_degree(walls: Seq<Wall>, level: Seq<char>, pts: Seq<Point2>, v: Point2, nb: Seq<Point2>)
    requires
        wall_loop(walls, level, pts),
        corner(walls, level, v),
        nb.no_duplicates(),
        forall|q: Point2| nb.contains(q) <==> level_edge(walls, level, v, q),
    ensures
        nb.len() == 2,
{
    assert(pts.contains(v));
    let i = choose|i: int| 0 <= i < pts.len() && pts[i] == v;
    lemma_loop_neighbours(walls, level, pts, i);
    let x = succ(pts, i);
    let y = pred(pts, i);
    assert(nb.contains(x));
    assert(nb.contains(y));
    let a = choose|a: int| 0 <= a < nb.len() && nb[a] == x;
    let b = choose|b: int| 0 <= b < nb.len() && nb[b] == y;
    assert(a != b);
    assert forall|c: int| 0 <= c < nb.len() implies nb[c] == x || nb[c] == y by {
        assert(nb.contains(nb[c]));
        assert(level_edge(walls, level, pts[i], nb[c]));
    }
    if nb.len() > 2 {
        let c = if a != 0 && b != 0 {
            0
        } else if a != 1 && b != 1 {
            1
        } else {
            2
        };
        assert(nb[c] == x || nb[c] == y);
    }
}

/// Two distinct sequences holding the same points have the same length.
proof fn lemma_same_points_same_len(a: Seq<Point2>, b: Seq<Point2>)
    requires
        a.no_duplicates(),
        b.no_duplicates(),
        forall|p: Point2| a.contains(p) <==> b.contains(p),
    ensures
        a.len() == b.len(),
{
    a.unique_seq_to_set();
    b.unique_seq_to_set();
    assert(a.to_set() =~= b.to_set());
}

/// The loop started from its `s`-th point.
pub open spec fn rotated(pts: Seq<Point2>, s: int) -> Seq<Point2> {
    Seq::new(
        pts.len(),
        |j: int|
            if s + j < pts.len() {
                pts[s + j]
            } else {
                pts[s + j - pts.len()]
            },
    )
}

/// The loop walked the other way round.
pub open spec fn reversed_loop(pts: Seq<Point2>) -> Seq<Point2> {
    Seq::new(pts.len(), |j: int| pts[pts.len() - 1 - j])
}

proof fn lemma_rotated_loop(walls: Seq<Wall>, level: Seq<char>, pts: Seq<Point2>, s: int)
    requires
        wall_loop(walls, level, pts),
        0 <= s < pts.len(),
    ensures
        wall_loop(walls, level, rotated(pts, s)),
        rotated(pts, s)[0] == pts[s],
        rotated(pts, s)[1] == succ(pts, s),
{
    let n = pts.len() as int;
    let r = rotated(pts, s);
    let idx = |j: int|
        if s + j < n {
            s + j
        } else {
            s + j - n
        };
    assert forall|j: int| 0 <= j < n implies 0 <= #[trigger] idx(j) < n && r[j] == pts[idx(j)] && succ(r, j) == succ(
        pts,
        idx(j),
    ) && pred(r, j) == pred(pts, idx(j)) by {
        if j + 1 < n {
            assert(succ(r, j) == r[j + 1]);
        } else {
            assert(succ(r, j) == r[0]);
        }
        if j > 0 {
            assert(pred(r, j) == r[j - 1]);
        } else {
            assert(pred(r, j) == r[n - 1]);
        }
    }
    assert forall|a: int, b: int| 0 <= a < n && 0 <= b < n && a != b implies r[a] != r[b] by {
        assert(r[a] == pts[idx(a)]);
        assert(r[b] == pts[idx(b)]);
    }
    assert forall|i: int| 0 <= i < n implies level_edge(walls, level, r[i], #[trigger] succ(r, i)) by {
        assert(r[i] == pts[idx(i)]);
        assert(level_edge(walls, level, pts[idx(i)], succ(pts, idx(i))));
    }
    assert forall|p: Point2| corner(walls, level, p) implies r.contains(p) by {
        assert(pts.contains(p));
        let k = choose|k: int| 0 <= k < n && pts[k] == p;
        let j = if k >= s {
            k - s
        } else {
            k - s + n
        };
        assert(idx(j) == k);
        assert(r[j] == p);
    }
    assert forall|i: int, q: Point2| 0 <= i < n && #[trigger] level_edge(walls, level, r[i], q) implies q == succ(r, i)
        || q == pred(r, i) by {
        assert(r[i] == pts[idx(i)]);
        assert(level_edge(walls, level, pts[idx(i)], q));
    }
    assert(r[0] == pts[s]);
    assert(idx(1) == if s + 1 < n { s + 1 } else { 0 });
}

proof fn lemma_reversed_loop(walls: Seq<Wall>, level: Seq<char>, pts: Seq<Point2>)
    requires
        wall_loop(walls, level, pts),
    ensures
        wall_loop(walls, level, reversed_loop(pts)),
        forall|j: int| 0 <= j < pts.len() ==> #[trigger] reversed_loop(pts)[j] == pts[pts.len() - 1 - j],
        forall|j: int| 0 <= j < pts.len() ==> #[trigger] succ(reversed_loop(pts), j) == pred(pts, pts.len() - 1 - j),
{
    let n = pts.len() as int;
    let r = reversed_loop(pts);
    assert forall|j: int| 0 <= j < n implies #[trigger] succ(r, j) == pred(pts, n - 1 - j) && pred(r, j) == succ(
        pts,
        n - 1 - j,
    ) by {
        if j + 1 < n {
            assert(succ(r, j) == r[j + 1]);
        } else {
            assert(succ(r, j) == r[0]);
        }
        if j > 0 {
            assert(pred(r, j) == r[j - 1]);
        } else {
            assert(pred(r, j) == r[n - 1]);
        }
    }
    assert forall|a: int, b: int| 0 <= a < n && 0 <= b < n && a != b implies r[a] != r[b] by {
        assert(r[a] == pts[n - 1 - a]);
        assert(r[b] == pts[n - 1 - b]);
    }
    assert forall|i: int| 0 <= i < n implies level_edge(walls, level, r[i], #[trigger] succ(r, i)) by {
        lemma_loop_neighbours(walls, level, pts, n - 1 - i);
    }
    assert forall|p: Point2| corner(walls, level, p) implies r.contains(p) by {
        assert(pts.contains(p));
        let k = choose|k: int| 0 <= k < n && pts[k] == p;
        assert(r[n - 1 - k] == p);
    }
    assert forall|i: int, q: Point2| 0 <= i < n && #[trigger] level_edge(walls, level, r[i], q) implies q == succ(r, i)
        || q == pred(r, i) by {
        assert(r[i] == pts[n - 1 - i]);
        assert(level_edge(walls, level, pts[n - 1 - i], q));
        assert(succ(r, i) == pred(pts, n - 1 - i));
    }
}

/// Any loop of the level can be walked from `start` toward `first`, one of
/// `start`'s neighbours.
proof fn lemma_walk_from(walls: Seq<Wall>, level: Seq<char>, pts: Seq<Point2>, start: Point2, first: Point2) -> (q: Seq<
    Point2,
>)
    requires
        wall_loop(walls, level, pts),
        corner(walls, level, start),
        level_edge(walls, level, start, first),
    ensures
        wall_loop(walls, level, q),
        q[0] == start,
        q[1] == first,
        q.len() == pts.len(),
{
    let n = pts.len() as int;
    assert(pts.contains(start));
    let s = choose|s: int| 0 <= s < n && pts[s] == start;
    assert(level_edge(walls, level, pts[s], first));
    if first == succ(pts, s) {
        lemma_rotated_loop(walls, level, pts, s);
        rotated(pts, s)
    } else {
        lemma_reversed_loop(walls, level, pts);
        let r = reversed_loop(pts);
        let t = n - 1 - s;
        assert(r[t] == start);
        assert(succ(r, t) == pred(pts, s));
        lemma_rotated_loop(walls, level, r, t);
        rotated(r, t)
    }
}

/// The bound on plan coordinates and wall counts under which the loop's area
/// is computed without overflow.
pub open spec fn coord_bound() -> int {
    0x100_0000_0000
}

pub open spec fn point_bounded(p: Point2) -> bool {
    -coord_bound() <= p.x.ticks <= coord_bound() && -coord_bound() <= p.y.ticks <= coord_bound()
}

/// The level's walls lie within the coordinate bound and are not too many.
pub open spec fn footprint_inputs_fit(walls: Seq<Wall>, level: Seq<char>) -> bool {
    &&& walls.len() <= coord_bound()
    &&& forall|i: int|
        0 <= i < walls.len() && (#[trigger] walls[i]).level@ == level ==> point_bounded(walls[i].start)
            && point_bounded(walls[i].end)
}

proof fn lemma_term_bounded(a: Point2, b: Point2)
    requires
        point_bounded(a),
        point_bounded(b),
    ensures
        -2 * coord_bound() * coord_bound() <= a.x.ticks * b.y.ticks - b.x.ticks * a.y.ticks <= 2 * coord_bound()
            * coord_bound(),
{
    let c = coord_bound();
    assert(-c * c <= a.x.ticks * b.y.ticks <= c * c) by (nonlinear_arith)
        requires
            -c <= a.x.ticks <= c,
            -c <= b.y.ticks <= c,
            c > 0,
    ;
    assert(-c * c <= b.x.ticks * a.y.ticks <= c * c) by (nonlinear_arith)
        requires
            -c <= b.x.ticks <= c,
            -c <= a.y.ticks <= c,
            c > 0,
    ;
}

proof fn lemma_area_fits(ps: Seq<Point2>)
    requires
        ps.len() <= 2 * coord_bound(),
        forall|i: int| 0 <= i < ps.len() ==> point_bounded(#[trigger] ps[i]),
    ensures
        area_fits(ps),
{
    let n = ps.len() as int;
    let t = 2 * coord_bound() * coord_bound();
    assert forall|k: int| 0 <= k < n implies -t <= #[trigger] shoelace_term(ps, k) <= t by {
        let j = (k + 1) % n;
        assert(0 <= j < n);
        assert(point_bounded(ps[k]));
        assert(point_bounded(ps[j]));
        lemma_term_bounded(ps[k], ps[j]);
    }
    assert forall|k: int| 0 <= k <= n implies -k * t <= #[trigger] shoelace_upto(ps, k) <= k * t by {
        lemma_upto_bounded(ps, k, t);
    }
    assert forall|k: int| 0 <= k < n implies fits128(#[trigger] shoelace_term(ps, k)) && fits128(shoelace_upto(ps, k + 1)) by {
        assert(-(k + 1) * t <= shoelace_upto(ps, k + 1) <= (k + 1) * t);
        assert(t == 0x2_0000_0000_0000_0000_0000);
        assert((k + 1) * t <= 0x200_0000_0000 * 0x2_0000_0000_0000_0000_0000) by (nonlinear_arith)
            requires
                k + 1 <= 0x200_0000_0000,
                t == 0x2_0000_0000_0000_0000_0000,
        ;
    }
}

proof fn lemma_upto_bounded(ps: Seq<Point2>, k: int, t: int)
    requires
        0 <= k <= ps.len(),
        forall|j: int| 0 <= j < ps.len() ==> -t <= #[trigger] shoelace_term(ps, j) <= t,
    ensures
        -k * t <= shoelace_upto(ps, k) <= k * t,
    decreases k,
{
    if k > 0 {
        lemma_upto_bounded(ps, k - 1, t);
        assert(-(k - 1) * t - t == -k * t) by (nonlinear_arith);
        assert((k - 1) * t + t == k * t) by (nonlinear_arith);
    }
}

/// Walking a loop the other way negates its signed area.
proof fn lemma_reversed_area(ps: Seq<Point2>)
    requires
        ps.len() >= 1,
    ensures
        signed_area2(ps.reverse()) == -signed_area2(ps),
{
    let n = ps.len() as int;
    let r = ps.reverse();
    assert forall|j: int| 0 <= j < n implies #[trigger] shoelace_term(r, j) == -shoelace_term(
        ps,
        if j < n - 1 { n - 2 - j } else { n - 1 },
    ) by {
        if j < n - 1 {
            lemma_small_mod((j + 1) as nat, n as nat);
            lemma_small_mod((n - 1 - j) as nat, n as nat);
            assert(r[(j + 1) % n] == ps[n - 2 - j]);
            assert((n - 2 - j + 1) % n == n - 1 - j);
        } else {
            assert(n % n == 0) by {
                vstd::arithmetic::div_mod::lemma_mod_self_0(n);
            }
            assert(r[(j + 1) % n] == ps[n - 1]);
            assert(((n - 1) + 1) % n == 0);
        }
    }
    lemma_reversed_prefix(ps, n - 1);
    assert(shoelace_upto(ps, 0) == 0);
    assert(shoelace_term(r, n - 1) == -shoelace_term(ps, n - 1));
    assert(r.len() == n);
    assert(shoelace_upto(r, n) == shoelace_upto(r, n - 1) + shoelace_term(r, n - 1));
    assert(shoelace_upto(ps, n) == shoelace_upto(ps, n - 1) + shoelace_term(ps, n - 1));
}

proof fn lemma_reversed_prefix(ps: Seq<Point2>, k: int)
    requires
        ps.len() >= 1,
        0 <= k <= ps.len() - 1,
        forall|j: int| 0 <= j < ps.len() ==> #[trigger] shoelace_term(ps.reverse(), j) == -shoelace_term(
            ps,
            if j < ps.len() - 1 { ps.len() - 2 - j } else { ps.len() - 1 },
        ),
    ensures
        shoelace_upto(ps.reverse(), k) == -(shoelace_upto(ps, ps.len() - 1) - shoelace_upto(ps, ps.len() - 1 - k)),
    decreases k,
{
    let n = ps.len() as int;
    if k > 0 {
        lemma_reversed_prefix(ps, k - 1);
        assert(shoelace_term(ps.reverse(), k - 1) == -shoelace_term(ps, n - 1 - k));
    }
}

fn contains_point(v: &Vec<Point2>, p: Point2) -> (r: bool)
    ensures
        r == v@.contains(p),
{
    let mut i: usize = 0;
    while i < v.len()
        invariant
            i <= v@.len(),
            forall|k: int| 0 <= k < i ==> v@[k] != p,
        decreases v@.len() - i,
    {
        if v[i] == p {
            return true;
        }
        i = i + 1;
    }
    false
}

fn add_point(v: &mut Vec<Point2>, p: Point2)
    requires
        old(v)@.no_duplicates(),
    ensures
        final(v)@.no_duplicates(),
        forall|x: Point2| #[trigger] final(v)@.contains(x) <==> old(v)@.contains(x) || x == p,
        final(v)@.len() <= old(v)@.len() + 1,
{
    if !contains_point(v, p) {
        let ghost before = v@;
        v.push(p);
        assert forall|x: Point2| #[trigger] v@.contains(x) <==> before.contains(x) || x == p by {
            if before.contains(x) {
                let k = choose|k: int| 0 <= k < before.len() && before[k] == x;
                assert(v@[k] == x);
            }
            if x == p {
                assert(v@[before.len() as int] == p);
            }
        }
    }
}

fn contains_pair(v: &Vec<(Point2, Point2)>, a: Point2, b: Point2) -> (r: bool)
    ensures
        r == v@.contains((a, b)),
{
    let mut i: usize = 0;
    while i < v.len()
        invariant
            i <= v@.len(),
            forall|k: int| 0 <= k < i ==> v@[k] != (a, b),
        decreases v@.len() - i,
    {
        if v[i].0 == a && v[i].1 == b {
            return true;
        }
        i = i + 1;
    }
    false
}

fn add_pair(v: &mut Vec<(Point2, Point2)>, a: Point2, b: Point2)
    requires
        old(v)@.no_duplicates(),
    ensures
        final(v)@.no_duplicates(),
        forall|x: (Point2, Point2)| #[trigger] final(v)@.contains(x) <==> old(v)@.contains(x) || x == (a, b),
{
    if !contains_pair(v, a, b) {
        let ghost before = v@;
        v.push((a, b));
        assert forall|x: (Point2, Point2)| #[trigger] v@.contains(x) <==> before.contains(x) || x == (a, b) by {
            if before.contains(x) {
                let k = choose|k: int| 0 <= k < before.len() && before[k] == x;
                assert(v@[k] == x);
            }
            if x == (a, b) {
                assert(v@[before.len() as int] == (a, b));
            }
        }
    }
}

/// For each of the first `k` listed corners, its two neighbours, the lesser
/// first, and no others.
pub open spec fn pairs_ok(walls: Seq<Wall>, level: Seq<char>, verts: Seq<Point2>, pairs: Seq<(Point2, Point2)>, k: int) -> bool {
    &&& pairs.len() == k
    &&& forall|j: int|
        0 <= j < k ==> (#[trigger] pairs[j]).0 != pairs[j].1 && pt_less(pairs[j].0, pairs[j].1) && level_edge(
            walls,
            level,
            verts[j],
            pairs[j].0,
        ) && level_edge(walls, level, verts[j], pairs[j].1) && (forall|q: Point2|
            level_edge(walls, level, verts[j], q) ==> q == pairs[j].0 || q == pairs[j].1)
}

/// The listed corners are exactly the level's corners, once each.
pub open spec fn verts_ok(walls: Seq<Wall>, level: Seq<char>, verts: Seq<Point2>) -> bool {
    &&& verts.no_duplicates()
    &&& forall|p: Point2| verts.contains(p) <==> corner(walls, level, p)
}

/// A corner with two known neighbours has no third.
proof fn lemma_two_neighbours(
    walls: Seq<Wall>,
    level: Seq<char>,
    verts: Seq<Point2>,
    pairs: Seq<(Point2, Point2)>,
    w: Point2,
    x: Point2,
    y: Point2,
    z: Point2,
)
    requires
        verts_ok(walls, level, verts),
        pairs_ok(walls, level, verts, pairs, verts.len() as int),
        corner(walls, level, w),
        level_edge(walls, level, w, x),
        level_edge(walls, level, w, y),
        level_edge(walls, level, w, z),
        x != y,
    ensures
        z == x || z == y,
{
    assert(verts.contains(w));
    let k = choose|k: int| 0 <= k < verts.len() && verts[k] == w;
    assert(pairs[k].0 != pairs[k].1);
}

/// A distinct sequence inside another holds no more points, and as many
/// only when it holds them all.
proof fn lemma_distinct_subset(a: Seq<Point2>, b: Seq<Point2>)
    requires
        a.no_duplicates(),
        b.no_duplicates(),
        forall|x: Point2| a.contains(x) ==> b.contains(x),
    ensures
        a.len() <= b.len(),
        a.len() == b.len() ==> forall|x: Point2| b.contains(x) ==> a.contains(x),
{
    a.unique_seq_to_set();
    b.unique_seq_to_set();
    assert(a.to_set().subset_of(b.to_set()));
    vstd::set_lib::lemma_len_subset(a.to_set(), b.to_set());
    if a.len() == b.len() {
        assert forall|x: Point2| b.contains(x) implies a.contains(x) by {
            if !a.contains(x) {
                assert(a.to_set().subset_of(b.to_set().remove(x)));
                vstd::set_lib::lemma_len_subset(a.to_set(), b.to_set().remove(x));
            }
        }
    }
}

/// Any loop of the level holds exactly its corners.
proof fn lemma_loop_len(walls: Seq<Wall>, level: Seq<char>, pts: Seq<Point2>, verts: Seq<Point2>)
    requires
        wall_loop(walls, level, pts),
        verts_ok(walls, level, verts),
    ensures
        pts.len() == verts.len(),
{
    assert forall|p: Point2| pts.contains(p) <==> verts.contains(p) by {
        if pts.contains(p) {
            let i = choose|i: int| 0 <= i < pts.len() && pts[i] == p;
            lemma_loop_neighbours(walls, level, pts, i);
            lemma_edge_symmetric(walls, level, pts[i], succ(pts, i));
        }
    }
    lemma_same_points_same_len(pts, verts);
}

fn pt_lt(a: Point2, b: Point2) -> (r: bool)
    ensures
        r == pt_less(a, b),
{
    a.x.ticks < b.x.ticks || (a.x.ticks == b.x.ticks && a.y.ticks < b.y.ticks)
}

fn index_of(v: &Vec<Point2>, p: Point2) -> (r: Option<usize>)
    ensures
        r matches Some(k) ==> k < v@.len() && v@[k as int] == p,
        r is None ==> !v@.contains(p),
{
    let mut i: usize = 0;
    while i < v.len()
        invariant
            i <= v@.len(),
            forall|k: int| 0 <= k < i ==> v@[k] != p,
        decreases v@.len() - i,
    {
        if v[i] == p {
            return Some(i);
        }
        i = i + 1;
    }
    None
}

/// The level's corners, once each, and its walls as joined corner pairs in
/// both directions.
fn level_graph(walls: &Vec<Wall>, level: &ElementId) -> (r: (Vec<Point2>, Vec<(Point2, Point2)>))
    ensures
        verts_ok(walls@, level@, r.0@),
        r.0@.len() <= 2 * walls@.len(),
        r.1@.no_duplicates(),
        forall|e: (Point2, Point2)| r.1@.contains(e) <==> level_edge(walls@, level@, e.0, e.1),
{
    let ghost lv = level@;
    let mut verts: Vec<Point2> = Vec::new();
    let mut edges: Vec<(Point2, Point2)> = Vec::new();
    let mut i: usize = 0;
    while i < walls.len()
        invariant
            i <= walls@.len(),
            lv == level@,
            verts@.no_duplicates(),
            edges@.no_duplicates(),
            forall|p: Point2| verts@.contains(p) <==> corner_upto(walls@, lv, i as int, p),
            forall|e: (Point2, Point2)| edges@.contains(e) <==> edge_upto(walls@, lv, i as int, e.0, e.1),
            verts@.len() <= 2 * i,
        decreases walls@.len() - i,
    {
        let w = &walls[i];
        if w.level == *level && w.start != w.end {
            add_point(&mut verts, w.start);
            add_point(&mut verts, w.end);
            add_pair(&mut edges, w.start, w.end);
            add_pair(&mut edges, w.end, w.start);
        }
        proof {
            let wi = walls@[i as int];
            assert forall|p: Point2| verts@.contains(p) <==> corner_upto(walls@, lv, i as int + 1, p) by {
                if corner_upto(walls@, lv, i as int + 1, p) && !touches(wi, lv, p) {
                    let j = choose|j: int| 0 <= j < i + 1 && #[trigger] touches(walls@[j], lv, p);
                    assert(j < i);
                }
                if touches(wi, lv, p) {
                    assert(touches(walls@[i as int], lv, p));
                }
            }
            assert forall|e: (Point2, Point2)| edges@.contains(e) <==> edge_upto(walls@, lv, i as int + 1, e.0, e.1) by {
                if edge_upto(walls@, lv, i as int + 1, e.0, e.1) && !edge_by(wi, lv, e.0, e.1) {
                    let j = choose|j: int| 0 <= j < i + 1 && #[trigger] edge_by(walls@[j], lv, e.0, e.1);
                    assert(j < i);
                }
                if edge_by(wi, lv, e.0, e.1) {
                    assert(edge_by(walls@[i as int], lv, e.0, e.1));
                    assert(e == (wi.start, wi.end) || e == (wi.end, wi.start));
                }
            }
        }
        i = i + 1;
    }
    (verts, edges)
}

/// The points joined to `v`, once each.
fn neighbours(edges: &Vec<(Point2, Point2)>, v: Point2) -> (r: Vec<Point2>)
    ensures
        r@.no_duplicates(),
        forall|q: Point2| r@.contains(q) <==> edges@.contains((v, q)),
{
    let mut nb: Vec<Point2> = Vec::new();
    let mut e: usize = 0;
    while e < edges.len()
        invariant
            e <= edges@.len(),
            nb@.no_duplicates(),
            forall|q: Point2| nb@.contains(q) <==> exists|j: int| 0 <= j < e && edges@[j] == (v, q),
        decreases edges@.len() - e,
    {
        if edges[e].0 == v {
            add_point(&mut nb, edges[e].1);
        }
        proof {
            assert forall|q: Point2| nb@.contains(q) <==> exists|j: int| 0 <= j < e + 1 && edges@[j] == (v, q) by {
                if edges@[e as int] == (v, q) {
                    assert(edges@[e as int].0 == v);
                }
            }
        }
        e = e + 1;
    }
    assert forall|q: Point2| nb@.contains(q) <==> edges@.contains((v, q)) by {
        if edges@.contains((v, q)) {
            let j = choose|j: int| 0 <= j < edges@.len() && edges@[j] == (v, q);
        }
    }
    nb
}

/// Each listed corner's two neighbours, the lesser first; none when some
/// corner has more or fewer than two, and then the level has no loop.
fn neighbour_pairs(walls: &Vec<Wall>, level: &ElementId, verts: &Vec<Point2>, edges: &Vec<(Point2, Point2)>) -> (r: Option<
    Vec<(Point2, Point2)>,
>)
    requires
        verts_ok(walls@, level@, verts@),
        forall|e: (Point2, Point2)| edges@.contains(e) <==> level_edge(walls@, level@, e.0, e.1),
    ensures
        r matches Some(pairs) ==> pairs_ok(walls@, level@, verts@, pairs@, verts@.len() as int),
        r is None ==> forall|pts: Seq<Point2>| !wall_loop(walls@, level@, pts),
{
    let ghost lv = level@;
    let mut pairs: Vec<(Point2, Point2)> = Vec::new();
    let mut k: usize = 0;
    while k < verts.len()
        invariant
            k <= verts@.len(),
            lv == level@,
            verts_ok(walls@, lv, verts@),
            forall|e: (Point2, Point2)| edges@.contains(e) <==> level_edge(walls@, lv, e.0, e.1),
            pairs_ok(walls@, lv, verts@, pairs@, k as int),
        decreases verts@.len() - k,
    {
        let v = verts[k];
        let nb = neighbours(edges, v);
        assert forall|q: Point2| nb@.contains(q) <==> level_edge(walls@, lv, v, q) by {
            assert(edges@.contains((v, q)) <==> level_edge(walls@, lv, (v, q).0, (v, q).1));
        }
        assert(verts@.contains(v));
        if nb.len() != 2 {
            proof {
                assert forall|pts: Seq<Point2>| !wall_loop(walls@, lv, pts) by {
                    if wall_loop(walls@, lv, pts) {
                        lemma_loop_degree(walls@, lv, pts, v, nb@);
                    }
                }
            }
            return None;
        }
        let a = nb[0];
        let b = nb[1];
        assert(nb@.contains(a) && nb@.contains(b));
        assert forall|q: Point2| level_edge(walls@, lv, v, q) implies q == a || q == b by {
            assert(nb@.contains(q));
            let j = choose|j: int| 0 <= j < 2 && nb@[j] == q;
        }
        let pair = if pt_lt(a, b) {
            (a, b)
        } else {
            (b, a)
        };
        let ghost before = pairs@;
        pairs.push(pair);
        proof {
            assert forall|j: int| 0 <= j < k + 1 implies (#[trigger] pairs@[j]).0 != pairs@[j].1 && pt_less(
                pairs@[j].0,
                pairs@[j].1,
            ) && level_edge(walls@, lv, verts@[j], pairs@[j].0) && level_edge(walls@, lv, verts@[j], pairs@[j].1) && (
            forall|q: Point2| level_edge(walls@, lv, verts@[j], q) ==> q == pairs@[j].0 || q == pairs@[j].1) by {
                if j < k {
                    assert(pairs@[j] == before[j]);
                }
            }
        }
        k = k + 1;
    }
    Some(pairs)
}

/// Walks the level's wall graph from corner `s`, toward its lesser neighbour,
/// until it comes back: the loop when that visits every corner.
fn walk_loop(walls: &Vec<Wall>, level: &ElementId, verts: &Vec<Point2>, pairs: &Vec<(Point2, Point2)>, s: usize) -> (r: Option<
    Vec<Point2>,
>)
    requires
        verts_ok(walls@, level@, verts@),
        pairs_ok(walls@, level@, verts@, pairs@, verts@.len() as int),
        verts@.len() >= 3,
        s < verts@.len(),
    ensures
        r matches Some(pts) ==> wall_loop(walls@, level@, pts@),
        r is None ==> forall|pts: Seq<Point2>| !wall_loop(walls@, level@, pts),
{
    let ghost w = walls@;
    let ghost lv = level@;
    let n = verts.len();
    let start = verts[s];
    assert(verts@.contains(start));
    let ghost exists_loop = exists|pts: Seq<Point2>| wall_loop(w, lv, pts);
    let ghost mut q: Seq<Point2> = Seq::empty();
    proof {
        if exists_loop {
            let pts = choose|pts: Seq<Point2>| wall_loop(w, lv, pts);
            assert(pairs@[s as int].0 != pairs@[s as int].1);
            q = lemma_walk_from(w, lv, pts, start, pairs@[s as int].0);
            lemma_loop_len(w, lv, q, verts@);
        }
    }
    let mut outline: Vec<Point2> = Vec::new();
    let mut previous: Option<Point2> = None;
    let mut current: Point2 = start;
    loop
        invariant_except_break
            !outline@.contains(current),
            outline@.len() < n,
            outline@.len() == 0 ==> previous is None && current == start,
            outline@.len() > 0 ==> previous == Some(outline@[outline@.len() - 1]) && level_edge(
                w,
                lv,
                outline@[outline@.len() - 1],
                current,
            ) && outline@[0] == start,
            corner(w, lv, current),
            exists_loop ==> current == q[outline@.len() as int],
        invariant
            w == walls@,
            lv == level@,
            n == verts@.len(),
            n >= 3,
            s < n,
            start == verts@[s as int],
            verts_ok(w, lv, verts@),
            pairs_ok(w, lv, verts@, pairs@, n as int),
            outline@.no_duplicates(),
            forall|j: int| 0 <= j < outline@.len() ==> corner(w, lv, #[trigger] outline@[j]),
            forall|j: int| 0 <= j && j + 1 < outline@.len() ==> level_edge(w, lv, #[trigger] outline@[j], outline@[j + 1]),
            exists_loop ==> q.len() == n && wall_loop(w, lv, q) && q[0] == start && q[1] == pairs@[s as int].0,
            exists_loop ==> outline@ == q.subrange(0, outline@.len() as int),
        ensures
            outline@.len() >= 1,
            outline@[0] == start,
            level_edge(w, lv, outline@[outline@.len() - 1], start),
            outline@.len() <= n,
            exists_loop ==> outline@.len() == n,
        decreases n - outline@.len(),
    {
        let ghost l = outline@.len() as int;
        let ghost old_outline = outline@;
        outline.push(current);
        assert(outline@[l] == current);
        let k = match index_of(verts, current) {
            Some(k) => k,
            None => {
                return None;
            },
        };
        let pair = pairs[k];
        assert(pair == pairs@[k as int]);
        let next = match previous {
            Some(p) => if pair.0 == p {
                pair.1
            } else {
                pair.0
            },
            None => pair.0,
        };
        proof {
            assert(level_edge(w, lv, current, next));
            lemma_edge_symmetric(w, lv, current, next);
            if l > 0 {
                let prev = old_outline[l - 1];
                lemma_edge_symmetric(w, lv, prev, current);
                assert(next != prev);
            }
            assert forall|j: int| 1 <= j < l + 1 implies outline@[j] != next by {
                if j < l - 1 {
                    let wj = outline@[j];
                    assert(level_edge(w, lv, outline@[j - 1], outline@[j]));
                    lemma_edge_symmetric(w, lv, outline@[j - 1], outline@[j]);
                    assert(level_edge(w, lv, outline@[j], outline@[j + 1]));
                    if wj == next {
                        lemma_edge_symmetric(w, lv, current, next);
                        lemma_two_neighbours(w, lv, verts@, pairs@, wj, outline@[j - 1], outline@[j + 1], current);
                    }
                }
            }
            assert forall|j: int| 0 <= j < l + 1 implies corner(w, lv, #[trigger] outline@[j]) by {
                if j < l {
                    assert(outline@[j] == old_outline[j]);
                }
            }
            assert forall|j: int| 0 <= j && j + 1 < l + 1 implies level_edge(w, lv, #[trigger] outline@[j], outline@[j + 1]) by {
                if j + 1 < l {
                    assert(outline@[j] == old_outline[j]);
                    assert(outline@[j + 1] == old_outline[j + 1]);
                } else {
                    assert(outline@[j] == old_outline[l - 1]);
                }
            }
            assert forall|a: int, b: int| 0 <= a < b < l + 1 implies outline@[a] != outline@[b] by {
                if b < l {
                    assert(outline@[a] == old_outline[a]);
                    assert(outline@[b] == old_outline[b]);
                } else {
                    assert(old_outline.contains(outline@[a]));
                }
            }
            if exists_loop {
                assert(outline@ =~= q.subrange(0, l + 1));
                if l == 0 {
                    assert(current == start);
                    assert(verts@[k as int] == verts@[s as int]);
                    assert(k == s);
                    assert(next == q[1]);
                } else {
                    assert(q[l] == current);
                    assert(level_edge(w, lv, q[l], next));
                    assert(pred(q, l) == q[l - 1]);
                    assert(q[l - 1] == old_outline[l - 1]);
                }
                assert(next == succ(q, l));
            }
        }
        previous = Some(current);
        current = next;
        if current == start {
            proof {
                if exists_loop {
                    if l + 1 < n {
                        assert(q[l + 1] == q[0]);
                    }
                }
            }
            break;
        }
        proof {
            assert(!outline@.contains(current)) by {
                if outline@.contains(current) {
                    let j = choose|j: int| 0 <= j < outline@.len() && outline@[j] == current;
                    assert(j != 0);
                }
            }
            {
                assert forall|a: int, b: int| 0 <= a < b < l + 2 implies outline@.push(current)[a] != outline@.push(current)[b] by {
                    if b == l + 1 {
                        assert(outline@.contains(outline@.push(current)[a]));
                    }
                }
                assert forall|x: Point2| outline@.push(current).contains(x) implies verts@.contains(x) by {
                    let j = choose|j: int| 0 <= j < l + 2 && outline@.push(current)[j] == x;
                    if j < l + 1 {
                        assert(corner(w, lv, outline@[j]));
                    }
                }
            }
            lemma_distinct_subset(outline@.push(current), verts@);
            if exists_loop {
                assert(l + 1 < n) by {
                    if l + 1 >= n {
                        assert(succ(q, l) == q[0]);
                    }
                }
            }
        }
        if outline.len() > verts.len() {
            return None;
        }
    }
    if outline.len() != n {
        return None;
    }
    proof {
        let o = outline@;
        assert forall|x: Point2| o.contains(x) implies verts@.contains(x) by {
            let j = choose|j: int| 0 <= j < o.len() && o[j] == x;
            assert(corner(w, lv, o[j]));
        }
        lemma_distinct_subset(o, verts@);
        assert forall|i: int| 0 <= i < o.len() implies level_edge(w, lv, o[i], #[trigger] succ(o, i)) by {
            if i + 1 < o.len() {
                assert(level_edge(w, lv, o[i], o[i + 1]));
            }
        }
        assert forall|i: int, z: Point2| 0 <= i < o.len() && #[trigger] level_edge(w, lv, o[i], z) implies z == succ(o, i)
            || z == pred(o, i) by {
            let a = succ(o, i);
            let b = pred(o, i);
            assert(level_edge(w, lv, o[i], a));
            let pi = if i > 0 {
                i - 1
            } else {
                o.len() - 1
            };
            assert(b == o[pi]);
            assert(succ(o, pi) == o[i]);
            assert(level_edge(w, lv, o[pi], succ(o, pi)));
            lemma_edge_symmetric(w, lv, o[pi], o[i]);
            let si = if i + 1 < o.len() {
                i + 1
            } else {
                0
            };
            assert(a == o[si]);
            assert(si != pi);
            lemma_two_neighbours(w, lv, verts@, pairs@, o[i], a, b, z);
        }
    }
    Some(outline)
}

/// The outer loop of a level whose walls form exactly one simple closed
/// footprint, wound counter-clockwise; none when the wall graph is anything
/// else (loose ends, partitions, several loops, fewer than three corners).
pub fn level_wall_loop_outline(model: &BuildingModel, level: &ElementId) -> (r: Option<Vec<Point2>>)
    requires
        footprint_inputs_fit(model.walls@, level@),
    ensures
        r matches Some(pts) ==> wall_loop(model.walls@, level@, pts@) && signed_area2(pts@) >= 0,
        r is None ==> forall|pts: Seq<Point2>| !wall_loop(model.walls@, level@, pts),
{
    let ghost w = model.walls@;
    let ghost lv = level@;
    let (verts, edges) = level_graph(&model.walls, level);
    if verts.len() < 3 {
        proof {
            assert forall|pts: Seq<Point2>| !wall_loop(w, lv, pts) by {
                if wall_loop(w, lv, pts) {
                    lemma_loop_len(w, lv, pts, verts@);
                }
            }
        }
        return None;
    }
    let pairs = match neighbour_pairs(&model.walls, level, &verts, &edges) {
        Some(p) => p,
        None => {
            return None;
        },
    };
    let mut s: usize = 0;
    let mut k: usize = 1;
    while k < verts.len()
        invariant
            s < verts@.len(),
            k <= verts@.len(),
        decreases verts@.len() - k,
    {
        if pt_lt(verts[k], verts[s]) {
            s = k;
        }
        k = k + 1;
    }
    let outline = match walk_loop(&model.walls, level, &verts, &pairs, s) {
        Some(o) => o,
        None => {
            return None;
        },
    };
    proof {
        lemma_loop_len(w, lv, outline@, verts@);
        assert forall|i: int| 0 <= i < outline@.len() implies point_bounded(#[trigger] outline@[i]) by {
            lemma_loop_neighbours(w, lv, outline@, i);
            lemma_edge_symmetric(w, lv, outline@[i], succ(outline@, i));
            let j = choose|j: int| 0 <= j < w.len() && #[trigger] touches(w[j], lv, outline@[i]);
            assert(w[j].level@ == lv);
        }
        lemma_area_fits(outline@);
    }
    if polygon_signed_area2(&outline) < 0 {
        let turned = reversed(&outline);
        proof {
            lemma_reversed_loop(w, lv, outline@);
            assert(reversed_loop(outline@) =~= outline@.reverse());
            lemma_reversed_area(outline@);
        }
        return Some(turned);
    }
    Some(outline)
}

} // verus!
