//! Roof planes, ceilings and floor decks: slopes, plan regions and their
//! validation, and the triangular gable-wall profile.

use vstd::prelude::*;

use crate::constraints::{clamp_i64, clamp_i64_exec, round_half_away, round_half_away_exec, rounded_length};
use crate::element::{contains_id, id_views, insert_unique_id, valid_id, validate_element_id, ElementId};
use crate::error::ModelError;
use crate::polygon::{diffs_fit, lemma_product_bounds, has_redundant_vertex, polygon_has_redundant_vertices, polygon_self_intersects, self_intersecting};
use crate::units::{Length, Point2};
use crate::wall::{fits, OpeningKind};

verus! {

/// A pitch as rise over run, both in ticks. Flat is zero rise.
#[derive(Debug, Clone, Copy, PartialEq, Eq, Structural)]
pub struct Slope {
    pub rise: Length,
    pub run: Length,
}

impl Slope {
    pub fn new(rise: Length, run: Length) -> (r: Slope)
        ensures
            r == (Slope { rise, run }),
    {
        Slope { rise, run }
    }

    /// Zero rise over a 12" run.
    pub fn flat() -> (r: Slope)
        ensures
            r.rise.ticks == 0,
            r.run.ticks == 192,
    {
        Slope { rise: Length::zero(), run: Length::from_whole_inches(12) }
    }

    pub fn is_flat(self) -> (r: bool)
        ensures
            r == (self.rise.ticks == 0),
    {
        self.rise.ticks == 0
    }
}

/// A sloped ceiling's pitch and the index of its low (spring) edge in the outline.
#[derive(Debug, Clone, Copy, PartialEq, Eq, Structural)]
pub struct CeilingSlope {
    pub pitch: Slope,
    pub low_edge: u32,
}

impl CeilingSlope {
    pub fn new(pitch: Slope, low_edge: u32) -> (r: CeilingSlope)
        ensures
            r == (CeilingSlope { pitch, low_edge }),
    {
        CeilingSlope { pitch, low_edge }
    }
}

/// The direction joists span across a region.
#[derive(Debug, Clone, Copy, PartialEq, Eq, Structural)]
pub enum SpanDirection {
    Shorter,
    Along,
    Across,
    Explicit(Point2),
}

/// The plan area a ceiling or floor deck covers: a room, or a polygon.
#[derive(Debug, Clone)]
pub enum SurfaceRegion {
    Room(ElementId),
    Polygon(Vec<Point2>),
}

/// What `validate_surface_region` accepts.
pub open spec fn region_valid(region: SurfaceRegion, rooms: Seq<Seq<char>>) -> bool {
    match region {
        SurfaceRegion::Room(room) => rooms.contains(room@),
        SurfaceRegion::Polygon(points) => points@.len() >= 3 && !self_intersecting(points@),
    }
}

/// The region's polygon coordinates differ by amounts that fit in an `i64`.
pub open spec fn region_fits(region: SurfaceRegion) -> bool {
    region matches SurfaceRegion::Polygon(points) ==> diffs_fit(points@)
}

/// A room region must name a known room; a polygon needs three points and no self-intersection.
pub fn validate_surface_region(region: &SurfaceRegion, room_ids: &Vec<ElementId>, owner: &ElementId) -> (r: Result<(), ModelError>)
    requires
        region_fits(*region),
    ensures
        r is Ok <==> region_valid(*region, id_views(room_ids@)),
        r matches Err(e) ==> match *region {
            SurfaceRegion::Room(_) => e is SurfaceRegionReferencesUnknownRoom,
            SurfaceRegion::Polygon(p) => if p@.len() < 3 {
                e is SurfaceRegionPolygonTooFewPoints
            } else {
                e is SurfaceRegionPolygonSelfIntersecting
            },
        },
{
    match region {
        SurfaceRegion::Room(room) => {
            if !contains_id(room_ids, room) {
                return Err(ModelError::SurfaceRegionReferencesUnknownRoom { element: owner.clone(), room: room.clone() });
            }
        },
        SurfaceRegion::Polygon(points) => {
            if points.len() < 3 {
                return Err(ModelError::SurfaceRegionPolygonTooFewPoints { element: owner.clone() });
            }
            if polygon_self_intersects(points) {
                return Err(ModelError::SurfaceRegionPolygonSelfIntersecting { element: owner.clone() });
            }
        },
    }
    Ok(())
}

/// A skylight or other opening in a roof plane, centered in the plane's local basis.
#[derive(Debug, Clone)]
pub struct RoofOpening {
    pub id: ElementId,
    pub kind: OpeningKind,
    pub center: Point2,
    pub width: Length,
    pub height: Length,
}

impl RoofOpening {
    pub fn new(id: &str, kind: OpeningKind, center: Point2, width: Length, height: Length) -> (r: RoofOpening)
        ensures
            r.id@ == id@,
            r.kind == kind,
            r.center == center,
            r.width == width,
            r.height == height,
    {
        RoofOpening { id: ElementId::from_str(id), kind, center, width, height }
    }
}

/// One planar roof face: a plan outline, a slope, the eave edge (downslope,
/// indexed into the outline), the springing elevation, overhangs and openings.
#[derive(Debug, Clone)]
pub struct RoofPlane {
    pub id: ElementId,
    pub name: String,
    pub level: ElementId,
    pub system: ElementId,
    pub outline: Vec<Point2>,
    pub slope: Slope,
    pub eave_edge: u32,
    pub reference_elevation: Length,
    pub eave_overhang: Length,
    pub rake_overhang: Length,
    pub openings: Vec<RoofOpening>,
}

/// The plane's own geometry is sound: enough points, no redundant vertex, no
/// self-intersection, the eave edge in range, a positive run, and
/// non-negative overhangs.
pub open spec fn roof_geometry_valid(p: RoofPlane) -> bool {
    &&& p.outline@.len() >= 3
    &&& !has_redundant_vertex(p.outline@)
    &&& !self_intersecting(p.outline@)
    &&& (p.eave_edge as int) < p.outline@.len()
    &&& p.slope.run.ticks > 0
    &&& p.eave_overhang.ticks >= 0
    &&& p.rake_overhang.ticks >= 0
}

/// The openings have valid, fresh ids and positive sizes.
pub open spec fn roof_openings_valid(openings: Seq<RoofOpening>, used: Seq<Seq<char>>) -> bool {
    &&& forall|i: int| 0 <= i < openings.len() ==> valid_id((#[trigger] openings[i]).id@) && !used.contains(openings[i].id@)
        && openings[i].width.ticks > 0 && openings[i].height.ticks > 0
    &&& forall|i: int, j: int| 0 <= i < j < openings.len() ==> openings[i].id@ != openings[j].id@
}

impl RoofPlane {
    pub fn new(
        id: &str,
        name: &str,
        level: &str,
        system: &str,
        outline: Vec<Point2>,
        slope: Slope,
        eave_edge: u32,
        reference_elevation: Length,
    ) -> (r: RoofPlane)
        ensures
            r.id@ == id@,
            r.name@ == name@,
            r.level@ == level@,
            r.system@ == system@,
            r.outline == outline,
            r.slope == slope,
            r.eave_edge == eave_edge,
            r.reference_elevation == reference_elevation,
            r.eave_overhang.ticks == 0,
            r.rake_overhang.ticks == 0,
            r.openings@.len() == 0,
    {
        RoofPlane {
            id: ElementId::from_str(id),
            name: name.to_owned(),
            level: ElementId::from_str(level),
            system: ElementId::from_str(system),
            outline,
            slope,
            eave_edge,
            reference_elevation,
            eave_overhang: Length::zero(),
            rake_overhang: Length::zero(),
            openings: Vec::new(),
        }
    }

    pub fn with_eave_overhang(self, overhang: Length) -> (r: RoofPlane)
        ensures
            r == (RoofPlane { eave_overhang: overhang, ..self }),
    {
        RoofPlane { eave_overhang: overhang, ..self }
    }

    pub fn with_rake_overhang(self, overhang: Length) -> (r: RoofPlane)
        ensures
            r == (RoofPlane { rake_overhang: overhang, ..self }),
    {
        RoofPlane { rake_overhang: overhang, ..self }
    }

    /// Validates the plane's geometry and its openings, registering the opening ids in `ids`.
    pub(crate) fn validate_geometry(&self, ids: &mut Vec<ElementId>) -> (r: Result<(), ModelError>)
        requires
            diffs_fit(self.outline@),
        ensures
            r is Ok <==> roof_geometry_valid(*self) && roof_openings_valid(self.openings@, id_views(old(ids)@)),
            r is Ok ==> id_views(final(ids)@) == id_views(old(ids)@) + self.openings@.map_values(|o: RoofOpening| o.id@),
    {
        if self.outline.len() < 3 {
            return Err(ModelError::RoofPlaneOutlineTooFewPoints { roof_plane: self.id.clone() });
        }
        if polygon_has_redundant_vertices(&self.outline) {
            return Err(ModelError::RoofPlaneOutlineHasRedundantVertices { roof_plane: self.id.clone() });
        }
        if polygon_self_intersects(&self.outline) {
            return Err(ModelError::RoofPlaneOutlineSelfIntersecting { roof_plane: self.id.clone() });
        }
        if self.eave_edge as usize >= self.outline.len() {
            return Err(ModelError::RoofPlaneEaveEdgeOutOfRange { roof_plane: self.id.clone() });
        }
        if self.slope.run.ticks <= 0 {
            return Err(ModelError::RoofPlaneInvalidSlope { roof_plane: self.id.clone() });
        }
        if self.eave_overhang.ticks < 0 || self.rake_overhang.ticks < 0 {
            return Err(ModelError::RoofPlaneInvalidOverhang { roof_plane: self.id.clone() });
        }
        let ghost start = id_views(ids@);
        let ghost opening_views = self.openings@.map_values(|o: RoofOpening| o.id@);
        let mut i: usize = 0;
        while i < self.openings.len()
            invariant
                i <= self.openings.len(),
                opening_views == self.openings@.map_values(|o: RoofOpening| o.id@),
                start == id_views(old(ids)@),
                roof_geometry_valid(*self),
                id_views(ids@) == start + opening_views.subrange(0, i as int),
                roof_openings_valid(self.openings@.subrange(0, i as int), start),
            decreases self.openings.len() - i,
        {
            let o = &self.openings[i];
            validate_element_id(&o.id)?;
            let ghost before = ids@;
            let inserted = insert_unique_id(ids, &o.id);
            if inserted.is_err() {
                proof {
                    let k = choose|k: int| 0 <= k < id_views(before).len() && id_views(before)[k] == o.id@;
                    assert(id_views(before)[k] == (start + opening_views.subrange(0, i as int))[k]);
                    assert(self.openings@[i as int] == *o);
                    if k < start.len() {
                        assert(start[k] == o.id@);
                        assert(start.contains(self.openings@[i as int].id@));
                    } else {
                        let t = k - start.len();
                        assert(opening_views.subrange(0, i as int)[t] == o.id@);
                        assert(self.openings@[t].id@ == self.openings@[i as int].id@);
                    }
                    assert(!roof_openings_valid(self.openings@, start));
                }
                return inserted;
            }
            if o.width.ticks <= 0 || o.height.ticks <= 0 {
                return Err(ModelError::InvalidOpeningSize { opening: o.id.clone() });
            }
            proof {
                assert(!id_views(before).contains(o.id@));
                let sub = self.openings@.subrange(0, i + 1);
                assert forall|t: int| 0 <= t < i implies sub[t].id@ != o.id@ by {
                    assert(id_views(before)[start.len() + t] == opening_views[t]);
                }
                assert forall|t: int| 0 <= t < start.len() implies start[t] != o.id@ by {
                    assert(id_views(before)[t] == start[t]);
                }
                assert(sub[i as int] == *o);
                assert forall|a: int| 0 <= a < i + 1 implies valid_id((#[trigger] sub[a]).id@) && !start.contains(sub[a].id@)
                    && sub[a].width.ticks > 0 && sub[a].height.ticks > 0 by {
                    if a < i {
                        assert(sub[a] == self.openings@.subrange(0, i as int)[a]);
                    }
                }
                assert forall|a: int, b: int| 0 <= a < b < i + 1 implies sub[a].id@ != sub[b].id@ by {
                    if b < i {
                        assert(sub[a] == self.openings@.subrange(0, i as int)[a]);
                        assert(sub[b] == self.openings@.subrange(0, i as int)[b]);
                    }
                }
                assert(ids@ == before.push(o.id));
                assert forall|a: int| 0 <= a < start.len() + i + 1 implies #[trigger] id_views(ids@)[a] == (start
                    + opening_views.subrange(0, i + 1))[a] by {
                    if a < start.len() + i {
                        assert(id_views(ids@)[a] == id_views(before)[a]);
                    }
                }
                assert(id_views(ids@) =~= start + opening_views.subrange(0, i + 1));
            }
            i = i + 1;
        }
        proof {
            assert(self.openings@.subrange(0, i as int) =~= self.openings@);
            assert(opening_views.subrange(0, i as int) =~= opening_views);
        }
        Ok(())
    }
}

/// A triangular gable extension above a wall: its width, the peak's distance
/// from the wall start, and the elevations of the base and the peak.
#[derive(Debug, Clone, Copy, PartialEq, Eq, Structural)]
pub struct GableWallProfile {
    pub width: Length,
    pub peak_x: Length,
    pub base_elevation: Length,
    pub peak_elevation: Length,
    pub peak: Point2,
}

/// The gable's height at `x` (clamped to the wall), interpolated along the
/// rake edges and rounded to the nearest tick.
pub open spec fn gable_height_at(g: GableWallProfile, x: int) -> int {
    let xc = if x < 0 { 0 } else if x > g.width.ticks { g.width.ticks as int } else { x };
    let h = g.peak_elevation.ticks - g.base_elevation.ticks;
    if xc <= g.peak_x.ticks {
        if g.peak_x.ticks <= 0 {
            0
        } else {
            rounded_length(h * xc, g.peak_x.ticks as int).ticks as int
        }
    } else {
        if g.width.ticks - g.peak_x.ticks <= 0 {
            0
        } else {
            rounded_length(h * (g.width.ticks - xc), g.width.ticks - g.peak_x.ticks).ticks as int
        }
    }
}

/// Rounding `v * den / den` gives back `v`.
proof fn lemma_round_whole(v: int, den: int)
    requires
        den > 0,
    ensures
        round_half_away(v * den, den) == v,
{
    if v >= 0 {
        assert(2 * (v * den) + den == v * (2 * den) + den) by (nonlinear_arith);
        assert(v * den >= 0) by (nonlinear_arith)
            requires
                v >= 0,
                den > 0,
        ;
        vstd::arithmetic::div_mod::lemma_fundamental_div_mod_converse(2 * (v * den) + den, 2 * den, v, den);
    } else {
        assert(v * den < 0) by (nonlinear_arith)
            requires
                v < 0,
                den > 0,
        ;
        assert(2 * (-(v * den)) + den == (-v) * (2 * den) + den) by (nonlinear_arith);
        vstd::arithmetic::div_mod::lemma_fundamental_div_mod_converse(2 * (-(v * den)) + den, 2 * den, -v, den);
    }
}

/// Rounding is monotone in a nonnegative numerator.
proof fn lemma_round_monotone(n1: int, n2: int, den: int)
    requires
        den > 0,
        0 <= n1 <= n2,
    ensures
        round_half_away(n1, den) <= round_half_away(n2, den),
        clamp_i64(round_half_away(n1, den)) <= clamp_i64(round_half_away(n2, den)),
{
    vstd::arithmetic::div_mod::lemma_div_is_ordered(2 * n1 + den, 2 * n2 + den, 2 * den);
}

/// The gable's height rises from nothing at the wall start to the peak height
/// at the peak, and falls back to nothing at the wall end; with the peak above
/// the base it never falls on the way up nor rises on the way down.
pub proof fn lemma_gable_height_shape(g: GableWallProfile, x1: int, x2: int)
    requires
        0 <= g.peak_x.ticks <= g.width.ticks,
    ensures
        gable_height_at(g, 0) == 0,
        g.peak_x.ticks > 0 && fits(g.peak_elevation.ticks - g.base_elevation.ticks) ==> gable_height_at(g, g.peak_x.ticks as int)
            == g.peak_elevation.ticks - g.base_elevation.ticks,
        g.width.ticks > g.peak_x.ticks ==> gable_height_at(g, g.width.ticks as int) == 0,
        g.peak_elevation.ticks >= g.base_elevation.ticks && 0 <= x1 <= x2 <= g.peak_x.ticks ==> gable_height_at(g, x1)
            <= gable_height_at(g, x2),
        g.peak_elevation.ticks >= g.base_elevation.ticks && g.peak_x.ticks <= x1 <= x2 <= g.width.ticks && 0 < x1
            ==> gable_height_at(g, x1) >= gable_height_at(g, x2),
{
    let h: int = g.peak_elevation.ticks - g.base_elevation.ticks;
    let p: int = g.peak_x.ticks as int;
    let w: int = g.width.ticks as int;
    assert(h * 0 == 0);
    if p > 0 {
        lemma_round_whole(0, p);
        assert(0int * p == 0);
        lemma_round_whole(h, p);
    }
    if w > p {
        lemma_round_whole(0, w - p);
        assert(0int * (w - p) == 0);
        assert(h * (w - w) == 0);
    }
    if h >= 0 && 0 <= x1 <= x2 <= p && p > 0 {
        assert(0 <= h * x1 <= h * x2) by (nonlinear_arith)
            requires
                h >= 0,
                0 <= x1 <= x2,
        ;
        lemma_round_monotone(h * x1, h * x2, p);
    }
    if h >= 0 && p <= x1 <= x2 <= w && 0 < x1 {
        if x2 > p {
            assert(0 <= h * (w - x2) <= h * (w - p)) by (nonlinear_arith)
                requires
                    h >= 0,
                    p <= x2 <= w,
            ;
            assert(h * (w - x2) <= h * (w - x1)) by (nonlinear_arith)
                requires
                    h >= 0,
                    x1 <= x2,
            ;
            lemma_round_monotone(h * (w - x2), h * (w - x1), w - p);
            lemma_round_monotone(h * (w - x2), h * (w - p), w - p);
            lemma_round_whole(h, w - p);
            assert(h * (w - p) == (w - p) * h) by (nonlinear_arith);
        }
    }
}

/// Positions off the wall clamp to its ends: before the start the height is
/// that at the start, past the end that at the end.
pub proof fn lemma_gable_height_clamps(g: GableWallProfile, x: int)
    requires
        g.width.ticks >= 0,
    ensures
        x < 0 ==> gable_height_at(g, x) == gable_height_at(g, 0),
        x > g.width.ticks ==> gable_height_at(g, x) == gable_height_at(g, g.width.ticks as int),
{
}

impl GableWallProfile {
    pub fn peak_height(&self) -> (r: Length)
        requires
            fits(self.peak_elevation.ticks - self.base_elevation.ticks),
        ensures
            r.ticks == self.peak_elevation.ticks - self.base_elevation.ticks,
    {
        Length { ticks: self.peak_elevation.ticks - self.base_elevation.ticks }
    }

    /// The wall-local outline `(0,0)`, `(width,0)`, `(peak_x, peak_height)`, counter-clockwise.
    pub fn outline(&self) -> (r: Vec<Point2>)
        requires
            fits(self.peak_elevation.ticks - self.base_elevation.ticks),
        ensures
            r@ == seq![
                Point2 { x: Length { ticks: 0 }, y: Length { ticks: 0 } },
                Point2 { x: self.width, y: Length { ticks: 0 } },
                Point2 { x: self.peak_x, y: Length { ticks: (self.peak_elevation.ticks - self.base_elevation.ticks) as i64 } },
            ],
    {
        let mut v: Vec<Point2> = Vec::new();
        v.push(Point2::new(Length::zero(), Length::zero()));
        v.push(Point2::new(self.width, Length::zero()));
        v.push(Point2::new(self.peak_x, self.peak_height()));
        v
    }

    /// The height above the wall top at `x`.
    pub fn height_at(&self, x: Length) -> (r: Length)
        requires
            self.width.ticks >= 0,
            fits(self.peak_elevation.ticks - self.base_elevation.ticks),
        ensures
            r.ticks == gable_height_at(*self, x.ticks as int),
    {
        let xc: i64 = if x.ticks < 0 {
            0
        } else if x.ticks > self.width.ticks {
            self.width.ticks
        } else {
            x.ticks
        };
        let h = self.peak_elevation.ticks as i128 - self.base_elevation.ticks as i128;
        if xc <= self.peak_x.ticks {
            if self.peak_x.ticks <= 0 {
                return Length::zero();
            }
            proof {
                lemma_product_bounds(h as int, xc as int);
            }
            let num = h * xc as i128;
            match round_half_away_exec(num, self.peak_x.ticks as i128) {
                Some(v) => Length { ticks: clamp_i64_exec(v) },
                None => Length::zero(),
            }
        } else {
            let run = self.width.ticks as i128 - self.peak_x.ticks as i128;
            if run <= 0 {
                return Length::zero();
            }
            proof {
                lemma_product_bounds(h as int, self.width.ticks - xc);
            }
            let num = h * (self.width.ticks as i128 - xc as i128);
            match round_half_away_exec(num, run) {
                Some(v) => Length { ticks: clamp_i64_exec(v) },
                None => Length::zero(),
            }
        }
    }
}

/// A finished ceiling over a region, at `height` below the level top; flat
/// unless it carries a slope.
#[derive(Debug, Clone)]
pub struct Ceiling {
    pub id: ElementId,
    pub name: String,
    pub level: ElementId,
    pub system: ElementId,
    pub region: SurfaceRegion,
    pub height: Length,
    pub slope: Option<CeilingSlope>,
}

impl Ceiling {
    pub fn new(id: &str, name: &str, level: &str, system: &str, region: SurfaceRegion, height: Length) -> (r: Ceiling)
        ensures
            r.id@ == id@,
            r.name@ == name@,
            r.level@ == level@,
            r.system@ == system@,
            r.region == region,
            r.height == height,
            r.slope is None,
    {
        Ceiling {
            id: ElementId::from_str(id),
            name: name.to_owned(),
            level: ElementId::from_str(level),
            system: ElementId::from_str(system),
            region,
            height,
            slope: None,
        }
    }
}

/// A level's structural floor deck over a region, with a joist span direction.
#[derive(Debug, Clone)]
pub struct FloorDeck {
    pub id: ElementId,
    pub name: String,
    pub level: ElementId,
    pub system: ElementId,
    pub region: SurfaceRegion,
    pub span: SpanDirection,
}

impl FloorDeck {
    pub fn new(id: &str, name: &str, level: &str, system: &str, region: SurfaceRegion) -> (r: FloorDeck)
        ensures
            r.id@ == id@,
            r.name@ == name@,
            r.level@ == level@,
            r.system@ == system@,
            r.region == region,
            r.span == SpanDirection::Shorter,
    {
        FloorDeck {
            id: ElementId::from_str(id),
            name: name.to_owned(),
            level: ElementId::from_str(level),
            system: ElementId::from_str(system),
            region,
            span: SpanDirection::Shorter,
        }
    }

    pub fn with_span(self, span: SpanDirection) -> (r: FloorDeck)
        ensures
            r == (FloorDeck { span, ..self }),
    {
        FloorDeck { span, ..self }
    }
}

} // verus!
