//! Extending a wall when a newly drawn segment is its exact collinear
//! continuation, so that a draw gesture stays one authored wall.

use vstd::prelude::*;

use crate::element::ElementId;
use crate::model::BuildingModel;
use crate::standards::BracedPanel;
use crate::units::{Length, Point2};
use crate::wall::{dim_constructible, driving_values_fit, fits, wall_basically_valid, wall_valid, Opening, Wall};

verus! {

/// The smaller of two integers.
pub open spec fn imin(a: int, b: int) -> int {
    if a <= b {
        a
    } else {
        b
    }
}

/// The larger of two integers.
pub open spec fn imax(a: int, b: int) -> int {
    if a >= b {
        a
    } else {
        b
    }
}

/// `|x|`.
pub open spec fn iabs(x: int) -> int {
    if x < 0 {
        -x
    } else {
        x
    }
}

/// Whether `new` continues `wall` straight through its endpoint `shared`:
/// which end moves (`true` for the start) and the added length. The strictly
/// negative dot product tells a continuation from a stroke back along the wall.
pub open spec fn continuation(wall: Wall, shared: Point2, new: Point2) -> Option<(bool, int)> {
    if !(wall.start == shared || wall.end == shared) {
        None
    } else {
        let extend_start = wall.start == shared;
        let other = if extend_start {
            wall.end
        } else {
            wall.start
        };
        let odx = other.x.ticks - shared.x.ticks;
        let ody = other.y.ticks - shared.y.ticks;
        let ndx = new.x.ticks - shared.x.ticks;
        let ndy = new.y.ticks - shared.y.ticks;
        if odx * ndy - ody * ndx != 0 || odx * ndx + ody * ndy >= 0 {
            None
        } else {
            let ext = if ndx != 0 {
                iabs(ndx)
            } else {
                iabs(ndy)
            };
            if ext > 0 {
                Some((extend_start, ext))
            } else {
                None
            }
        }
    }
}

/// The differences that the continuation test takes stay in range.
pub open spec fn continuation_fits(wall: Wall, shared: Point2, new: Point2) -> bool {
    &&& fits(wall.start.x.ticks - shared.x.ticks) && fits(wall.start.y.ticks - shared.y.ticks)
    &&& fits(wall.end.x.ticks - shared.x.ticks) && fits(wall.end.y.ticks - shared.y.ticks)
    &&& i64::MIN < new.x.ticks - shared.x.ticks <= i64::MAX
    &&& i64::MIN < new.y.ticks - shared.y.ticks <= i64::MAX
}

/// The continuations that wall `i` offers for the segment, in either direction.
pub open spec fn wall_candidates(w: Wall, i: int, s: Point2, e: Point2) -> Seq<(int, bool, Point2, int)> {
    let c1 = match continuation(w, s, e) {
        Some(c) => seq![(i, c.0, e, c.1)],
        None => Seq::empty(),
    };
    let c2 = match continuation(w, e, s) {
        Some(c) => seq![(i, c.0, s, c.1)],
        None => Seq::empty(),
    };
    c1 + c2
}

/// Every continuation that the first `k` walls on `level` offer:
/// (wall position, whether the start moves, new endpoint, added length).
pub open spec fn candidates(walls: Seq<Wall>, level: Seq<char>, s: Point2, e: Point2, k: int) -> Seq<(int, bool, Point2, int)>
    decreases k,
{
    if k <= 0 {
        Seq::empty()
    } else {
        candidates(walls, level, s, e, k - 1) + if walls[k - 1].level@ == level {
            wall_candidates(walls[k - 1], k - 1, s, e)
        } else {
            Seq::empty()
        }
    }
}

/// An axis-aligned wall overlaps the positive-length interior of an
/// axis-aligned segment on the same line.
pub open spec fn overlaps_interior(w: Wall, s: Point2, e: Point2) -> bool {
    if s.y == e.y && w.start.y == w.end.y && w.start.y == s.y {
        imax(imin(w.start.x.ticks as int, w.end.x.ticks as int), imin(s.x.ticks as int, e.x.ticks as int)) < imin(
            imax(w.start.x.ticks as int, w.end.x.ticks as int),
            imax(s.x.ticks as int, e.x.ticks as int),
        )
    } else if s.x == e.x && w.start.x == w.end.x && w.start.x == s.x {
        imax(imin(w.start.y.ticks as int, w.end.y.ticks as int), imin(s.y.ticks as int, e.y.ticks as int)) < imin(
            imax(w.start.y.ticks as int, w.end.y.ticks as int),
            imax(s.y.ticks as int, e.y.ticks as int),
        )
    } else {
        false
    }
}

/// Some wall on `level` other than wall `index` overlaps the segment.
pub open spec fn other_overlaps(walls: Seq<Wall>, level: Seq<char>, index: int, s: Point2, e: Point2) -> bool {
    exists|i: int| 0 <= i < walls.len() && i != index && walls[i].level@ == level && #[trigger] overlaps_interior(walls[i], s, e)
}

/// `after` is `before` moved along by `delta`.
pub open spec fn opening_shifted(before: Opening, after: Opening, delta: int) -> bool {
    after == Opening { center: Length { ticks: (before.center.ticks + delta) as i64 }, ..before }
}

/// `after` is `before` moved along by `delta`.
pub open spec fn panel_shifted(before: BracedPanel, after: BracedPanel, delta: int) -> bool {
    after == BracedPanel { offset: Length { ticks: (before.offset.ticks + delta) as i64 }, ..before }
}

/// The wall extended by `ext` at its start (moved to `new`) or at its end:
/// when the start moves, openings and bracing panels shift by `ext` so that
/// they stay where they were in the plan.
pub open spec fn wall_extended(before: Wall, after: Wall, extend_start: bool, new: Point2, ext: int) -> bool {
    let delta = if extend_start {
        ext
    } else {
        0
    };
    &&& after.start == if extend_start {
        new
    } else {
        before.start
    }
    &&& after.end == if extend_start {
        before.end
    } else {
        new
    }
    &&& after.length.ticks == before.length.ticks + ext
    &&& after.openings@.len() == before.openings@.len()
    &&& forall|i: int| 0 <= i < before.openings@.len() ==> opening_shifted(#[trigger] before.openings@[i], after.openings@[i], delta)
    &&& after.bracing@.len() == before.bracing@.len()
    &&& forall|i: int| 0 <= i < before.bracing@.len() ==> panel_shifted(#[trigger] before.bracing@[i], after.bracing@[i], delta)
    &&& after.id == before.id
    &&& after.name == before.name
    &&& after.level == before.level
    &&& after.height == before.height
    &&& after.system == before.system
    &&& after.dimensions == before.dimensions
    &&& after.tags == before.tags
}

/// Two walls agree in every field, the lists by their contents.
pub open spec fn wall_same(a: Wall, b: Wall) -> bool {
    &&& a.id == b.id
    &&& a.name == b.name
    &&& a.level == b.level
    &&& a.start == b.start
    &&& a.end == b.end
    &&& a.length == b.length
    &&& a.height == b.height
    &&& a.system == b.system
    &&& a.openings@ == b.openings@
    &&& a.bracing@ == b.bracing@
    &&& a.dimensions == b.dimensions
    &&& a.tags == b.tags
}

/// The shifts that extending `w` by `ext` performs stay in range.
pub open spec fn extension_fits(w: Wall, ext: int) -> bool {
    &&& fits(w.length.ticks + ext)
    &&& forall|i: int| 0 <= i < w.openings@.len() ==> fits((#[trigger] w.openings@[i]).center.ticks + ext)
    &&& forall|i: int| 0 <= i < w.bracing@.len() ==> fits((#[trigger] w.bracing@[i]).offset.ticks + ext)
}

/// What extending by a segment asks of the walls: the continuation tests and
/// the shifts stay in range, and the extended wall can be validated.
pub open spec fn extension_inputs_fit(walls: Seq<Wall>, level: Seq<char>, s: Point2, e: Point2) -> bool {
    &&& forall|i: int| 0 <= i < walls.len() && walls[i].level@ == level ==> continuation_fits(#[trigger] walls[i], s, e)
        && continuation_fits(walls[i], e, s)
    &&& forall|k: int| 0 <= k < candidates(walls, level, s, e, walls.len() as int).len() ==> {
        let c = #[trigger] candidates(walls, level, s, e, walls.len() as int)[k];
        &&& 0 <= c.0 < walls.len()
        &&& extension_fits(walls[c.0], c.3)
        &&& driving_values_fit(walls[c.0].dimensions@)
    }
}

proof fn lemma_mul_bound(a: int, b: int)
    by (nonlinear_arith)
    requires
        -0x8000_0000_0000_0000 <= a < 0x8000_0000_0000_0000,
        -0x8000_0000_0000_0000 < b < 0x8000_0000_0000_0000,
    ensures
        -0x3fff_ffff_ffff_ffff_8000_0000_0000_0000 <= a * b <= 0x3fff_ffff_ffff_ffff_8000_0000_0000_0000,
{
}

fn wall_continuation_at_endpoint(wall: &Wall, shared: Point2, new_endpoint: Point2) -> (r: Option<(bool, Length)>)
    requires
        continuation_fits(*wall, shared, new_endpoint),
    ensures
        match r {
            Some(c) => continuation(*wall, shared, new_endpoint) == Some((c.0, c.1.ticks as int)),
            None => continuation(*wall, shared, new_endpoint) is None,
        },
{
    let (other, extend_start) = if wall.start == shared {
        (wall.end, true)
    } else if wall.end == shared {
        (wall.start, false)
    } else {
        return None;
    };
    let old_dx = (other.x.ticks - shared.x.ticks) as i128;
    let old_dy = (other.y.ticks - shared.y.ticks) as i128;
    let new_dx = (new_endpoint.x.ticks - shared.x.ticks) as i128;
    let new_dy = (new_endpoint.y.ticks - shared.y.ticks) as i128;
    proof {
        lemma_mul_bound(old_dx as int, new_dy as int);
        lemma_mul_bound(old_dy as int, new_dx as int);
        lemma_mul_bound(old_dx as int, new_dx as int);
        lemma_mul_bound(old_dy as int, new_dy as int);
    }
    if old_dx * new_dy - old_dy * new_dx != 0 || old_dx * new_dx + old_dy * new_dy >= 0 {
        return None;
    }
    let extension = if new_dx != 0 {
        Length { ticks: new_endpoint.x.ticks - shared.x.ticks }.abs()
    } else {
        Length { ticks: new_endpoint.y.ticks - shared.y.ticks }.abs()
    };
    if extension.ticks > 0 {
        Some((extend_start, extension))
    } else {
        None
    }
}

fn wall_overlaps_segment_interior(wall: &Wall, start: Point2, end: Point2) -> (r: bool)
    ensures
        r == overlaps_interior(*wall, start, end),
{
    if start.y == end.y && wall.start.y == wall.end.y && wall.start.y == start.y {
        let wall_min = if wall.start.x.ticks <= wall.end.x.ticks { wall.start.x.ticks } else { wall.end.x.ticks };
        let wall_max = if wall.start.x.ticks >= wall.end.x.ticks { wall.start.x.ticks } else { wall.end.x.ticks };
        let segment_min = if start.x.ticks <= end.x.ticks { start.x.ticks } else { end.x.ticks };
        let segment_max = if start.x.ticks >= end.x.ticks { start.x.ticks } else { end.x.ticks };
        let lo = if wall_min >= segment_min { wall_min } else { segment_min };
        let hi = if wall_max <= segment_max { wall_max } else { segment_max };
        lo < hi
    } else if start.x == end.x && wall.start.x == wall.end.x && wall.start.x == start.x {
        let wall_min = if wall.start.y.ticks <= wall.end.y.ticks { wall.start.y.ticks } else { wall.end.y.ticks };
        let wall_max = if wall.start.y.ticks >= wall.end.y.ticks { wall.start.y.ticks } else { wall.end.y.ticks };
        let segment_min = if start.y.ticks <= end.y.ticks { start.y.ticks } else { end.y.ticks };
        let segment_max = if start.y.ticks >= end.y.ticks { start.y.ticks } else { end.y.ticks };
        let lo = if wall_min >= segment_min { wall_min } else { segment_min };
        let hi = if wall_max <= segment_max { wall_max } else { segment_max };
        lo < hi
    } else {
        false
    }
}

/// Moves every opening along by `delta`.
fn shift_openings(openings: &mut Vec<Opening>, delta: i64)
    requires
        forall|i: int| 0 <= i < old(openings)@.len() ==> fits((#[trigger] old(openings)@[i]).center.ticks + delta),
    ensures
        final(openings)@.len() == old(openings)@.len(),
        forall|i: int| 0 <= i < old(openings)@.len() ==> opening_shifted(#[trigger] old(openings)@[i], final(openings)@[i], delta as int),
{
    let ghost all = openings@;
    let mut rest: Vec<Opening> = Vec::new();
    std::mem::swap(&mut rest, openings);
    let mut out: Vec<Opening> = Vec::new();
    while rest.len() > 0
        invariant
            rest@ == all.subrange(out@.len() as int, all.len() as int),
            out@.len() <= all.len(),
            forall|i: int| 0 <= i < all.len() ==> fits((#[trigger] all[i]).center.ticks + delta),
            forall|i: int| 0 <= i < out@.len() ==> opening_shifted(#[trigger] all[i], out@[i], delta as int),
        decreases rest@.len(),
    {
        let ghost k = out@.len() as int;
        let o = rest.remove(0);
        assert(o == all[k]);
        let center = Length { ticks: o.center.ticks + delta };
        out.push(Opening { center, ..o });
        assert(rest@ =~= all.subrange(out@.len() as int, all.len() as int));
    }
    *openings = out;
}

/// Moves every bracing panel along by `delta`.
fn shift_panels(panels: &mut Vec<BracedPanel>, delta: i64)
    requires
        forall|i: int| 0 <= i < old(panels)@.len() ==> fits((#[trigger] old(panels)@[i]).offset.ticks + delta),
    ensures
        final(panels)@.len() == old(panels)@.len(),
        forall|i: int| 0 <= i < old(panels)@.len() ==> panel_shifted(#[trigger] old(panels)@[i], final(panels)@[i], delta as int),
{
    let ghost all = panels@;
    let mut rest: Vec<BracedPanel> = Vec::new();
    std::mem::swap(&mut rest, panels);
    let mut out: Vec<BracedPanel> = Vec::new();
    while rest.len() > 0
        invariant
            rest@ == all.subrange(out@.len() as int, all.len() as int),
            out@.len() <= all.len(),
            forall|i: int| 0 <= i < all.len() ==> fits((#[trigger] all[i]).offset.ticks + delta),
            forall|i: int| 0 <= i < out@.len() ==> panel_shifted(#[trigger] all[i], out@[i], delta as int),
        decreases rest@.len(),
    {
        let ghost k = out@.len() as int;
        let p = rest.remove(0);
        assert(p == all[k]);
        let offset = Length { ticks: p.offset.ticks + delta };
        out.push(BracedPanel { offset, ..p });
        assert(rest@ =~= all.subrange(out@.len() as int, all.len() as int));
    }
    *panels = out;
}

impl BuildingModel {
    /// Extends the one wall on `level` of which the drawn segment is an exact,
    /// non-overlapping collinear continuation, and returns its id. Nothing
    /// changes (and `None` comes back) when the segment is empty or not
    /// axis-aligned, when not exactly one continuation exists, when another
    /// wall on the level overlaps the segment, or when the extended wall does
    /// not validate. When the start moves, openings and bracing panels shift
    /// with it so that they keep their place in the plan.
    pub fn extend_collinear_wall(&mut self, level: &ElementId, segment_start: Point2, segment_end: Point2) -> (r: Option<ElementId>)
        requires
            extension_inputs_fit(old(self).walls@, level@, segment_start, segment_end),
        ensures
            final(self).walls@.len() == old(self).walls@.len(),
            r is None ==> forall|i: int| 0 <= i < old(self).walls@.len() ==> wall_same(#[trigger] old(self).walls@[i], final(self).walls@[i]),
            *final(self) == (BuildingModel { walls: final(self).walls, ..*old(self) }),
            ({
                let cands = candidates(old(self).walls@, level@, segment_start, segment_end, old(self).walls@.len() as int);
                r is Some ==> {
                    &&& segment_start != segment_end
                    &&& (segment_start.x == segment_end.x || segment_start.y == segment_end.y)
                    &&& cands.len() == 1
                    &&& !other_overlaps(old(self).walls@, level@, cands[0].0, segment_start, segment_end)
                    &&& wall_valid(final(self).walls@[cands[0].0])
                }
            }),
            ({
                let cands = candidates(old(self).walls@, level@, segment_start, segment_end, old(self).walls@.len() as int);
                (segment_start != segment_end && (segment_start.x == segment_end.x || segment_start.y == segment_end.y)
                    && cands.len() == 1 && !other_overlaps(old(self).walls@, level@, cands[0].0, segment_start, segment_end)
                    && (forall|w2: Wall|
                    #[trigger] wall_extended(old(self).walls@[cands[0].0], w2, cands[0].1, cands[0].2, cands[0].3)
                        ==> wall_basically_valid(w2) && forall|k: int|
                        0 <= k < w2.dimensions@.len() ==> !dim_constructible(w2, #[trigger] w2.dimensions@[k]))) ==> r is Some
            }),
            r matches Some(id) ==> {
                let c = candidates(old(self).walls@, level@, segment_start, segment_end, old(self).walls@.len() as int)[0];
                &&& id@ == old(self).walls@[c.0].id@
                &&& wall_extended(old(self).walls@[c.0], final(self).walls@[c.0], c.1, c.2, c.3)
                &&& forall|i: int| 0 <= i < old(self).walls@.len() && i != c.0 ==> final(self).walls@[i] == old(self).walls@[i]
            },
    {
        if segment_start == segment_end || (segment_start.x != segment_end.x && segment_start.y != segment_end.y) {
            return None;
        }
        let ghost walls0 = self.walls@;
        let n = self.walls.len();
        let mut cands: Vec<(usize, bool, Point2, Length)> = Vec::new();
        let mut i: usize = 0;
        while i < n
            invariant
                i <= n,
                n == walls0.len(),
                walls0 == self.walls@,
                extension_inputs_fit(walls0, level@, segment_start, segment_end),
                cands@.len() == candidates(walls0, level@, segment_start, segment_end, i as int).len(),
                forall|k: int| 0 <= k < cands@.len() ==> {
                    let c = #[trigger] cands@[k];
                    let d = candidates(walls0, level@, segment_start, segment_end, i as int)[k];
                    c.0 as int == d.0 && c.1 == d.1 && c.2 == d.2 && c.3.ticks as int == d.3 && c.3.ticks > 0
                },
            decreases n - i,
        {
            let ghost before = cands@;
            let ghost prev = candidates(walls0, level@, segment_start, segment_end, i as int);
            if self.walls[i].level == *level {
                match wall_continuation_at_endpoint(&self.walls[i], segment_start, segment_end) {
                    Some((extend_start, extension)) => {
                        cands.push((i, extend_start, segment_end, extension));
                    },
                    None => {},
                }
                let ghost mid = cands@;
                match wall_continuation_at_endpoint(&self.walls[i], segment_end, segment_start) {
                    Some((extend_start, extension)) => {
                        cands.push((i, extend_start, segment_start, extension));
                    },
                    None => {},
                }
                proof {
                    let wc = wall_candidates(walls0[i as int], i as int, segment_start, segment_end);
                    assert(candidates(walls0, level@, segment_start, segment_end, i as int + 1) =~= prev + wc);
                    assert(cands@.len() == prev.len() + wc.len());
                    assert forall|k: int| 0 <= k < cands@.len() implies {
                        let c = #[trigger] cands@[k];
                        let d = (prev + wc)[k];
                        c.0 as int == d.0 && c.1 == d.1 && c.2 == d.2 && c.3.ticks as int == d.3 && c.3.ticks > 0
                    } by {
                        if k < before.len() {
                            assert(cands@[k] == before[k]);
                        }
                    }
                }
            } else {
                proof {
                    assert(candidates(walls0, level@, segment_start, segment_end, i as int + 1) =~= prev);
                }
            }
            i = i + 1;
        }
        let ghost all = candidates(walls0, level@, segment_start, segment_end, n as int);
        if cands.len() != 1 {
            return None;
        }
        let (index, extend_start, new_endpoint, extension) = cands[0];
        assert(0 <= all[0].0 < n);
        assert(index as int == all[0].0);
        let mut j: usize = 0;
        while j < n
            invariant
                j <= n,
                n == walls0.len(),
                walls0 == self.walls@,
                index < n,
                all.len() == 1,
                index as int == all[0].0,
                all == candidates(walls0, level@, segment_start, segment_end, n as int),
                walls0 == old(self).walls@,
                forall|q: int| 0 <= q < j && q != index && walls0[q].level@ == level@ ==> !#[trigger] overlaps_interior(
                    walls0[q],
                    segment_start,
                    segment_end,
                ),
            decreases n - j,
        {
            if j != index && self.walls[j].level == *level && wall_overlaps_segment_interior(
                &self.walls[j],
                segment_start,
                segment_end,
            ) {
                proof {
                    assert(index as int == all[0].0);
                    assert(walls0[j as int].level@ == level@);
                    assert(overlaps_interior(walls0[j as int], segment_start, segment_end));
                    assert(other_overlaps(walls0, level@, all[0].0, segment_start, segment_end));
                }
                return None;
            }
            j = j + 1;
        }
        let mut walls: Vec<Wall> = Vec::new();
        std::mem::swap(&mut walls, &mut self.walls);
        let mut wall = walls.remove(index);
        let ghost w0 = wall;
        let old_start = wall.start;
        let old_end = wall.end;
        let old_length = wall.length;
        if extend_start {
            wall.start = new_endpoint;
            shift_openings(&mut wall.openings, extension.ticks);
            shift_panels(&mut wall.bracing, extension.ticks);
        } else {
            wall.end = new_endpoint;
        }
        wall.length = Length { ticks: wall.length.ticks + extension.ticks };
        let ghost w1 = wall;
        proof {
            assert(wall_extended(w0, w1, all[0].1, all[0].2, all[0].3));
        }
        let ok = wall.validate().is_ok();
        let result = if ok {
            Some(wall.id.clone())
        } else {
            if extend_start {
                proof {
                    assert forall|i: int| 0 <= i < wall.openings@.len() implies fits(
                        (#[trigger] wall.openings@[i]).center.ticks + (-extension.ticks),
                    ) by {
                        assert(opening_shifted(w0.openings@[i], wall.openings@[i], extension.ticks as int));
                    }
                    assert forall|i: int| 0 <= i < wall.bracing@.len() implies fits(
                        (#[trigger] wall.bracing@[i]).offset.ticks + (-extension.ticks),
                    ) by {
                        assert(panel_shifted(w0.bracing@[i], wall.bracing@[i], extension.ticks as int));
                    }
                }
                wall.start = old_start;
                shift_openings(&mut wall.openings, -extension.ticks);
                shift_panels(&mut wall.bracing, -extension.ticks);
            } else {
                wall.end = old_end;
            }
            wall.length = old_length;
            proof {
                assert(wall.openings@ =~= w0.openings@);
                assert(wall.bracing@ =~= w0.bracing@);
            }
            None
        };
        walls.insert(index, wall);
        std::mem::swap(&mut walls, &mut self.walls);
        proof {
            if ok {
                assert(self.walls@ =~= walls0.update(index as int, w1));
            } else {
                assert(self.walls@ =~= walls0.update(index as int, wall));
                assert forall|i: int| 0 <= i < walls0.len() implies wall_same(#[trigger] walls0[i], self.walls@[i]) by {
                    if i == index as int {
                        assert(wall_same(w0, wall));
                    }
                }
            }
        }
        result
    }
}

} // verus!
