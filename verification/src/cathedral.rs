//! Cathedral roof planes: a roof plane is cathedral when no ceiling on its
//! level covers the centroid of its footprint.

use vstd::prelude::*;

use crate::element::ElementId;
use crate::model::BuildingModel;
use crate::polygon::diffs_fit;
use crate::surfaces::{RoofPlane, SurfaceRegion};
use crate::topology::{inside_polygon, point_in_polygon};
use crate::units::{Length, Point2};

verus! {

/// The sum of the first `k` coordinates, `x` or else `y`.
pub open spec fn coordinate_sum(ps: Seq<Point2>, k: int, x: bool) -> int
    decreases k,
{
    if k <= 0 {
        0
    } else {
        coordinate_sum(ps, k - 1, x) + if x {
            ps[k - 1].x.ticks as int
        } else {
            ps[k - 1].y.ticks as int
        }
    }
}

/// `a / n` rounded toward zero.
pub open spec fn div_toward_zero(a: int, n: int) -> int {
    if a >= 0 {
        a / n
    } else {
        -((-a) / n)
    }
}

/// The vertex centroid of a plan polygon, each coordinate the mean rounded
/// toward zero; none for an empty outline.
pub open spec fn vertex_centroid(ps: Seq<Point2>) -> Option<Point2> {
    if ps.len() == 0 {
        None
    } else {
        Some(
            Point2 {
                x: Length { ticks: div_toward_zero(coordinate_sum(ps, ps.len() as int, true), ps.len() as int) as i64 },
                y: Length { ticks: div_toward_zero(coordinate_sum(ps, ps.len() as int, false), ps.len() as int) as i64 },
            },
        )
    }
}

proof fn lemma_sum_bounds(ps: Seq<Point2>, k: int, x: bool)
    requires
        0 <= k <= ps.len(),
    ensures
        k * (i64::MIN as int) <= coordinate_sum(ps, k, x) <= k * (i64::MAX as int),
    decreases k,
{
    if k > 0 {
        lemma_sum_bounds(ps, k - 1, x);
    }
}

proof fn lemma_mean_fits(sum: int, n: int)
    requires
        n > 0,
        n * (i64::MIN as int) <= sum <= n * (i64::MAX as int),
    ensures
        i64::MIN <= div_toward_zero(sum, n) <= i64::MAX,
{
    if sum >= 0 {
        assert(sum / n <= i64::MAX) by (nonlinear_arith)
            requires
                n > 0,
                0 <= sum <= n * (i64::MAX as int),
        ;
        assert(sum / n >= 0) by (nonlinear_arith)
            requires
                n > 0,
                0 <= sum,
        ;
    } else {
        assert((-sum) / n <= -(i64::MIN as int)) by (nonlinear_arith)
            requires
                n > 0,
                0 <= -sum <= n * (-(i64::MIN as int)),
        ;
        assert((-sum) / n >= 0) by (nonlinear_arith)
            requires
                n > 0,
                0 <= -sum,
        ;
    }
}

/// The vertex centroid of a plan polygon, exact on ticks.
pub fn polygon_vertex_centroid(points: &Vec<Point2>) -> (r: Option<Point2>)
    requires
        points@.len() <= 0x4000_0000_0000_0000,
    ensures
        r == vertex_centroid(points@),
{
    let n = points.len();
    if n == 0 {
        return None;
    }
    let mut sx: i128 = 0;
    let mut sy: i128 = 0;
    let mut i: usize = 0;
    while i < n
        invariant
            i <= n,
            n == points@.len(),
            n <= 0x4000_0000_0000_0000,
            sx == coordinate_sum(points@, i as int, true),
            sy == coordinate_sum(points@, i as int, false),
        decreases n - i,
    {
        proof {
            lemma_sum_bounds(points@, i as int, true);
            lemma_sum_bounds(points@, i as int, false);
            assert(i * (i64::MAX as int) <= 0x4000_0000_0000_0000 * (i64::MAX as int)) by (nonlinear_arith)
                requires
                    i <= 0x4000_0000_0000_0000,
            ;
            assert(i * (i64::MIN as int) >= 0x4000_0000_0000_0000 * (i64::MIN as int)) by (nonlinear_arith)
                requires
                    i <= 0x4000_0000_0000_0000,
            ;
        }
        sx = sx + points[i].x.ticks as i128;
        sy = sy + points[i].y.ticks as i128;
        i = i + 1;
    }
    proof {
        lemma_sum_bounds(points@, n as int, true);
        lemma_sum_bounds(points@, n as int, false);
        lemma_mean_fits(sx as int, n as int);
        lemma_mean_fits(sy as int, n as int);
    }
    let count = n as i128;
    let mx = if sx >= 0 {
        sx / count
    } else {
        -((-sx) / count)
    };
    let my = if sy >= 0 {
        sy / count
    } else {
        -((-sy) / count)
    };
    Some(Point2::new(Length { ticks: mx as i64 }, Length { ticks: my as i64 }))
}

/// The plane is cathedral against the resolved ceiling outlines (each with
/// its level): no ceiling on the plane's level encloses its footprint's
/// centroid. A plane without a centroid is not cathedral.
pub open spec fn cathedral(plane: RoofPlane, outlines: Seq<(ElementId, Vec<Point2>)>) -> bool {
    match vertex_centroid(plane.outline@) {
        None => false,
        Some(c) => !exists|i: int|
            0 <= i < outlines.len() && (#[trigger] outlines[i]).0@ == plane.level@ && inside_polygon(c, outlines[i].1@),
    }
}

/// A ceiling outline on another level than the plane never affects whether
/// the plane is cathedral: adding one to the outlines, or taking one away,
/// leaves the classification unchanged.
pub proof fn lemma_cathedral_ignores_other_levels(
    plane: RoofPlane,
    outlines: Seq<(ElementId, Vec<Point2>)>,
    extra: (ElementId, Vec<Point2>),
    k: int,
)
    requires
        extra.0@ != plane.level@,
    ensures
        cathedral(plane, outlines.push(extra)) == cathedral(plane, outlines),
        0 <= k < outlines.len() && outlines[k].0@ != plane.level@ ==> cathedral(plane, outlines.remove(k))
            == cathedral(plane, outlines),
{
    if let Some(c) = vertex_centroid(plane.outline@) {
        let pushed = outlines.push(extra);
        if exists|i: int| 0 <= i < pushed.len() && (#[trigger] pushed[i]).0@ == plane.level@ && inside_polygon(c, pushed[i].1@) {
            let i = choose|i: int| 0 <= i < pushed.len() && (#[trigger] pushed[i]).0@ == plane.level@ && inside_polygon(c, pushed[i].1@);
            assert(i < outlines.len());
            assert(outlines[i] == pushed[i]);
        }
        if exists|i: int| 0 <= i < outlines.len() && (#[trigger] outlines[i]).0@ == plane.level@ && inside_polygon(c, outlines[i].1@) {
            let i = choose|i: int| 0 <= i < outlines.len() && (#[trigger] outlines[i]).0@ == plane.level@ && inside_polygon(c, outlines[i].1@);
            assert(pushed[i] == outlines[i]);
        }
        if 0 <= k < outlines.len() && outlines[k].0@ != plane.level@ {
            let removed = outlines.remove(k);
            if exists|i: int| 0 <= i < removed.len() && (#[trigger] removed[i]).0@ == plane.level@ && inside_polygon(c, removed[i].1@) {
                let i = choose|i: int| 0 <= i < removed.len() && (#[trigger] removed[i]).0@ == plane.level@ && inside_polygon(c, removed[i].1@);
                if i < k {
                    assert(outlines[i] == removed[i]);
                } else {
                    assert(outlines[i + 1] == removed[i]);
                }
            }
            if exists|i: int| 0 <= i < outlines.len() && (#[trigger] outlines[i]).0@ == plane.level@ && inside_polygon(c, outlines[i].1@) {
                let i = choose|i: int| 0 <= i < outlines.len() && (#[trigger] outlines[i]).0@ == plane.level@ && inside_polygon(c, outlines[i].1@);
                assert(i != k);
                if i < k {
                    assert(removed[i] == outlines[i]);
                } else {
                    assert(removed[i - 1] == outlines[i]);
                }
            }
        }
    }
}

/// A ceiling on the plane's own level that encloses the footprint's centroid
/// makes the plane not cathedral, whatever other outlines there are.
pub proof fn lemma_cathedral_covered(plane: RoofPlane, outlines: Seq<(ElementId, Vec<Point2>)>, k: int)
    requires
        0 <= k < outlines.len(),
        outlines[k].0@ == plane.level@,
        vertex_centroid(plane.outline@) matches Some(c) && inside_polygon(c, outlines[k].1@),
    ensures
        !cathedral(plane, outlines),
{
    let c = vertex_centroid(plane.outline@)->0;
    assert(outlines[k].0@ == plane.level@ && inside_polygon(c, outlines[k].1@));
}

/// With no ceiling on its level, a plane with a footprint is cathedral, and
/// a plane without one never is.
pub proof fn lemma_cathedral_uncovered(plane: RoofPlane, outlines: Seq<(ElementId, Vec<Point2>)>)
    requires
        forall|i: int| 0 <= i < outlines.len() ==> (#[trigger] outlines[i]).0@ != plane.level@,
    ensures
        cathedral(plane, outlines) == (plane.outline@.len() > 0),
{
}

/// The exact tests that classifying the plane performs stay in range.
pub open spec fn cathedral_fits(plane: RoofPlane, outlines: Seq<(ElementId, Vec<Point2>)>) -> bool {
    &&& plane.outline@.len() <= 0x4000_0000_0000_0000
    &&& vertex_centroid(plane.outline@) matches Some(c) ==> forall|i: int|
        0 <= i < outlines.len() ==> diffs_fit((#[trigger] outlines[i]).1@.push(c))
}

/// Whether `plane` is cathedral against the resolved ceiling outlines.
pub fn plane_is_cathedral(plane: &RoofPlane, ceiling_outlines: &Vec<(ElementId, Vec<Point2>)>) -> (r: bool)
    requires
        cathedral_fits(*plane, ceiling_outlines@),
    ensures
        r == cathedral(*plane, ceiling_outlines@),
{
    let sample = match polygon_vertex_centroid(&plane.outline) {
        Some(c) => c,
        None => {
            return false;
        },
    };
    let mut i: usize = 0;
    while i < ceiling_outlines.len()
        invariant
            i <= ceiling_outlines@.len(),
            vertex_centroid(plane.outline@) == Some(sample),
            cathedral_fits(*plane, ceiling_outlines@),
            forall|q: int|
                0 <= q < i ==> !((#[trigger] ceiling_outlines@[q]).0@ == plane.level@ && inside_polygon(
                    sample,
                    ceiling_outlines@[q].1@,
                )),
        decreases ceiling_outlines@.len() - i,
    {
        let (level, outline) = &ceiling_outlines[i];
        if *level == plane.level {
            assert(diffs_fit(ceiling_outlines@[i as int].1@.push(sample)));
            if point_in_polygon(sample, outline) {
                return false;
            }
        }
        i = i + 1;
    }
    true
}

/// The outline that a room resolves to, looked up by room id.
pub open spec fn room_outline(rooms: Seq<(ElementId, Vec<Point2>)>, id: Seq<char>) -> Option<Seq<Point2>>
    decreases rooms.len(),
{
    if rooms.len() == 0 {
        None
    } else if rooms[0].0@ == id {
        Some(rooms[0].1@)
    } else {
        room_outline(rooms.drop_first(), id)
    }
}

/// The outline of a ceiling's region: a polygon is its own outline, a room
/// resolves through `rooms` (the outlines of the rooms' enclosing wall loops).
pub open spec fn region_outline(region: SurfaceRegion, rooms: Seq<(ElementId, Vec<Point2>)>) -> Option<Seq<Point2>> {
    match region {
        SurfaceRegion::Polygon(points) => Some(points@),
        SurfaceRegion::Room(id) => room_outline(rooms, id@),
    }
}

fn copy_points(points: &Vec<Point2>) -> (r: Vec<Point2>)
    ensures
        r@ == points@,
{
    let mut out: Vec<Point2> = Vec::new();
    let mut i: usize = 0;
    while i < points.len()
        invariant
            i <= points@.len(),
            out@ == points@.subrange(0, i as int),
        decreases points@.len() - i,
    {
        out.push(points[i]);
        i = i + 1;
    }
    assert(out@ =~= points@);
    out
}

fn find_room_outline(rooms: &Vec<(ElementId, Vec<Point2>)>, id: &ElementId) -> (r: Option<Vec<Point2>>)
    ensures
        match r {
            Some(o) => room_outline(rooms@, id@) == Some(o@),
            None => room_outline(rooms@, id@) is None,
        },
{
    let mut i: usize = 0;
    assert(rooms@.subrange(0, rooms@.len() as int) =~= rooms@);
    while i < rooms.len()
        invariant
            i <= rooms@.len(),
            room_outline(rooms@, id@) == room_outline(rooms@.subrange(i as int, rooms@.len() as int), id@),
        decreases rooms@.len() - i,
    {
        let ghost rest = rooms@.subrange(i as int, rooms@.len() as int);
        assert(rest.drop_first() =~= rooms@.subrange(i as int + 1, rooms@.len() as int));
        if rooms[i].0 == *id {
            return Some(copy_points(&rooms[i].1));
        }
        i = i + 1;
    }
    None
}

/// `outlines` are the model's ceilings that resolve, each with its level:
/// every entry comes from a ceiling, and every ceiling that resolves has one.
pub open spec fn outlines_resolved(m: BuildingModel, rooms: Seq<(ElementId, Vec<Point2>)>, outlines: Seq<(ElementId, Vec<Point2>)>) -> bool {
    &&& outlines.len() <= m.ceilings@.len()
    &&& entries_from_ceilings(m, rooms, outlines)
    &&& ceilings_covered(m, rooms, outlines)
}

/// Every entry is some ceiling's level with that ceiling's resolved outline.
pub open spec fn entries_from_ceilings(m: BuildingModel, rooms: Seq<(ElementId, Vec<Point2>)>, outlines: Seq<(ElementId, Vec<Point2>)>) -> bool {
    exists|idx: Seq<int>| #[trigger] entries_at(m, rooms, outlines, idx)
}

/// Entry `i` is ceiling `idx[i]`'s level with its resolved outline.
pub open spec fn entries_at(m: BuildingModel, rooms: Seq<(ElementId, Vec<Point2>)>, outlines: Seq<(ElementId, Vec<Point2>)>, idx: Seq<int>) -> bool {
    &&& idx.len() == outlines.len()
    &&& forall|i: int| 0 <= i < outlines.len() ==> 0 <= #[trigger] idx[i] < m.ceilings@.len() && outlines[i].0
        == m.ceilings@[idx[i]].level && region_outline(m.ceilings@[idx[i]].region, rooms) == Some(outlines[i].1@)
}

/// Every ceiling that resolves has an entry.
pub open spec fn ceilings_covered(m: BuildingModel, rooms: Seq<(ElementId, Vec<Point2>)>, outlines: Seq<(ElementId, Vec<Point2>)>) -> bool {
    forall|c: int|
        0 <= c < m.ceilings@.len() && #[trigger] region_outline(m.ceilings@[c].region, rooms) is Some ==> exists|i: int|
            0 <= i < outlines.len() && outlines[i].0 == m.ceilings@[c].level && Some(outlines[i].1@) == region_outline(
            m.ceilings@[c].region,
            rooms,
        )
}

/// The exact tests of cathedral classification stay in range for every plane
/// against every resolvable ceiling.
pub open spec fn cathedral_inputs_fit(m: BuildingModel, rooms: Seq<(ElementId, Vec<Point2>)>) -> bool {
    forall|p: int| 0 <= p < m.roof_planes@.len() ==> {
        &&& (#[trigger] m.roof_planes@[p]).outline@.len() <= 0x4000_0000_0000_0000
        &&& vertex_centroid(m.roof_planes@[p].outline@) matches Some(c) ==> forall|k: int|
            0 <= k < m.ceilings@.len() ==> (#[trigger] region_outline(m.ceilings@[k].region, rooms) matches Some(o) ==> diffs_fit(
                o.push(c),
            ))
    }
}

impl BuildingModel {
    /// Each ceiling's level with its resolved outline, in ceiling order,
    /// skipping a ceiling whose room does not resolve.
    pub fn resolve_ceiling_outlines(&self, room_outlines: &Vec<(ElementId, Vec<Point2>)>) -> (r: Vec<(ElementId, Vec<Point2>)>)
        ensures
            outlines_resolved(*self, room_outlines@, r@),
    {
        let mut out: Vec<(ElementId, Vec<Point2>)> = Vec::new();
        let ghost mut idx: Seq<int> = Seq::empty();
        let mut c: usize = 0;
        while c < self.ceilings.len()
            invariant
                c <= self.ceilings@.len(),
                out@.len() <= c,
                idx.len() == out@.len(),
                forall|i: int| 0 <= i < out@.len() ==> 0 <= #[trigger] idx[i] < c && out@[i].0 == self.ceilings@[idx[i]].level
                    && region_outline(self.ceilings@[idx[i]].region, room_outlines@) == Some(out@[i].1@),
                forall|k: int|
                    0 <= k < c && #[trigger] region_outline(self.ceilings@[k].region, room_outlines@) is Some ==> exists|i: int|
                        0 <= i < out@.len() && out@[i].0 == self.ceilings@[k].level && Some(out@[i].1@) == region_outline(
                        self.ceilings@[k].region,
                        room_outlines@,
                    ),
            decreases self.ceilings@.len() - c,
        {
            let ceiling = &self.ceilings[c];
            let resolved = match &ceiling.region {
                SurfaceRegion::Polygon(points) => Some(copy_points(points)),
                SurfaceRegion::Room(id) => find_room_outline(room_outlines, id),
            };
            let ghost before = out@;
            let ghost before_idx = idx;
            match resolved {
                Some(outline) => {
                    out.push((ceiling.level.clone(), outline));
                    proof {
                        idx = idx.push(c as int);
                        assert forall|i: int| 0 <= i < out@.len() implies 0 <= #[trigger] idx[i] < c + 1 && out@[i].0
                            == self.ceilings@[idx[i]].level && region_outline(self.ceilings@[idx[i]].region, room_outlines@)
                            == Some(out@[i].1@) by {
                            if i < before.len() {
                                assert(out@[i] == before[i]);
                                assert(idx[i] == before_idx[i]);
                            }
                        }
                        assert forall|k: int|
                            0 <= k < c + 1 && #[trigger] region_outline(self.ceilings@[k].region, room_outlines@) is Some
                                implies exists|i: int| 0 <= i < out@.len() && out@[i].0 == self.ceilings@[k].level && Some(
                                out@[i].1@,
                            ) == region_outline(self.ceilings@[k].region, room_outlines@) by {
                            if k < c {
                                let i = choose|i: int| 0 <= i < before.len() && before[i].0 == self.ceilings@[k].level && Some(
                                    before[i].1@,
                                ) == region_outline(self.ceilings@[k].region, room_outlines@);
                                assert(out@[i] == before[i]);
                            } else {
                                assert(out@[before.len() as int].0 == self.ceilings@[c as int].level);
                            }
                        }
                    }
                },
                None => {},
            }
            c = c + 1;
        }
        proof {
            assert(entries_at(*self, room_outlines@, out@, idx));
        }
        out
    }

    /// Whether each roof plane is cathedral, aligned to `roof_planes`; room
    /// ceilings resolve through `room_outlines`.
    pub fn roof_cathedral_flags(&self, room_outlines: &Vec<(ElementId, Vec<Point2>)>) -> (r: Vec<bool>)
        requires
            cathedral_inputs_fit(*self, room_outlines@),
        ensures
            r@.len() == self.roof_planes@.len(),
            exists|outlines: Seq<(ElementId, Vec<Point2>)>|
                {
                    &&& outlines_resolved(*self, room_outlines@, outlines)
                    &&& forall|i: int| 0 <= i < r@.len() ==> #[trigger] r@[i] == cathedral(self.roof_planes@[i], outlines)
                },
    {
        let outlines = self.resolve_ceiling_outlines(room_outlines);
        let mut flags: Vec<bool> = Vec::new();
        let mut i: usize = 0;
        while i < self.roof_planes.len()
            invariant
                i <= self.roof_planes@.len(),
                flags@.len() == i,
                cathedral_inputs_fit(*self, room_outlines@),
                outlines_resolved(*self, room_outlines@, outlines@),
                forall|q: int| 0 <= q < i ==> #[trigger] flags@[q] == cathedral(self.roof_planes@[q], outlines@),
            decreases self.roof_planes@.len() - i,
        {
            proof {
                let plane = self.roof_planes@[i as int];
                assert(plane.outline@.len() <= 0x4000_0000_0000_0000);
                if vertex_centroid(plane.outline@) is Some {
                    let c = vertex_centroid(plane.outline@)->0;
                    assert forall|q: int| 0 <= q < outlines@.len() implies diffs_fit((#[trigger] outlines@[q]).1@.push(c)) by {
                        let idx = choose|idx: Seq<int>| #[trigger] entries_at(*self, room_outlines@, outlines@, idx);
                        let k = idx[q];
                        assert(region_outline(self.ceilings@[k].region, room_outlines@) is Some);
                    }
                }
                assert(cathedral_fits(plane, outlines@));
            }
            flags.push(plane_is_cathedral(&self.roof_planes[i], &outlines));
            i = i + 1;
        }
        flags
    }

    /// Whether one roof plane is cathedral; room ceilings resolve through
    /// `room_outlines`.
    pub fn roof_plane_is_cathedral(&self, plane: &RoofPlane, room_outlines: &Vec<(ElementId, Vec<Point2>)>) -> (r: bool)
        requires
            plane.outline@.len() <= 0x4000_0000_0000_0000,
            vertex_centroid(plane.outline@) matches Some(c) ==> forall|k: int|
                0 <= k < self.ceilings@.len() ==> (#[trigger] region_outline(self.ceilings@[k].region, room_outlines@) matches Some(
                    o,
                ) ==> diffs_fit(o.push(c))),
        ensures
            exists|outlines: Seq<(ElementId, Vec<Point2>)>|
                outlines_resolved(*self, room_outlines@, outlines) && r == cathedral(*plane, outlines),
    {
        let outlines = self.resolve_ceiling_outlines(room_outlines);
        proof {
            if vertex_centroid(plane.outline@) is Some {
                let c = vertex_centroid(plane.outline@)->0;
                assert forall|q: int| 0 <= q < outlines@.len() implies diffs_fit((#[trigger] outlines@[q]).1@.push(c)) by {
                    let idx = choose|idx: Seq<int>| #[trigger] entries_at(*self, room_outlines@, outlines@, idx);
                    let k = idx[q];
                    assert(region_outline(self.ceilings@[k].region, room_outlines@) is Some);
                }
            }
        }
        plane_is_cathedral(plane, &outlines)
    }
}

} // verus!
