//! Corner treatment of wall spans: where walls meet at a corner, one runs
//! through to the far face of the other and the other stops at its face; a
//! partition that tees into a wall stops at that wall's face. Spans are in
//! half ticks along the wall, from its authored start, and take which side of
//! each wall the room lies on as an input.

use vstd::prelude::*;

use crate::element::ElementId;
use crate::model::{
    lemma_key_lookup_rearranged, lemma_keys_rearranged, lemma_no_duplicates_rearranged, stack_defaults, system_index,
    BuildingModel,
};
use crate::order::{key_index, keys_of, position_of};
use crate::standards::starter_defaults;
use crate::system::{first_layer_from, lemma_first_layer_from_range, nominal_inches, thickness_sum, thickness_sums_fit, ConstructionLayer, LayerFunction};
use crate::text::{seq_le, seq_lt, str_less, lemma_seq_lt_trichotomy};
use crate::units::{Length, Point2};
use crate::wall::{Wall, WallJoin, WallJoinKind};

verus! {

/// Which member of a double top plate a span is for: the primary lap, or the
/// counter lap with the through and butt roles swapped.
#[derive(Debug, Clone, Copy, PartialEq, Eq, Structural)]
pub enum CornerLapPass {
    Primary,
    Counter,
}

/// Which band of a wall's thickness a span stops against.
#[derive(Debug, Clone, Copy, PartialEq, Eq, Structural)]
pub enum WallPhysicalBand {
    Envelope,
    Framing,
}

/// The bound on lengths and layer thicknesses under which the span
/// arithmetic stays in range.
pub open spec fn span_bound() -> int {
    0x0100_0000_0000_0000
}

/// Every running total of layer thicknesses, and every thickness, is within
/// the bound.
pub open spec fn layers_bounded(layers: Seq<ConstructionLayer>) -> bool {
    &&& forall|k: int| 0 <= k <= layers.len() ==> -span_bound() <= #[trigger] thickness_sum(layers, k) <= span_bound()
    &&& forall|i: int| 0 <= i < layers.len() ==> -span_bound() <= (#[trigger] layers[i]).thickness.ticks <= span_bound()
}

/// Wall lengths and system thicknesses are within the bound.
pub open spec fn corner_inputs_fit(m: BuildingModel) -> bool {
    &&& forall|i: int| 0 <= i < m.walls@.len() ==> -8 * span_bound() <= (#[trigger] m.walls@[i]).length.ticks <= 8 * span_bound()
    &&& forall|i: int| 0 <= i < m.systems@.len() ==> layers_bounded((#[trigger] m.systems@[i]).layers@)
}

pub open spec fn sign(a: int, b: int) -> int {
    if b > a {
        1
    } else if b < a {
        -1
    } else {
        0
    }
}

/// The unit direction from the wall's start to its end.
pub open spec fn along_axis(w: Wall) -> (int, int) {
    (sign(w.start.x.ticks as int, w.end.x.ticks as int), sign(w.start.y.ticks as int, w.end.y.ticks as int))
}

/// The wall's plus side: its direction turned left.
pub open spec fn side_axis(w: Wall) -> (int, int) {
    (-along_axis(w).1, along_axis(w).0)
}

pub open spec fn negate(a: (int, int)) -> (int, int) {
    (-a.0, -a.1)
}

pub open spec fn imax(a: int, b: int) -> int {
    if a >= b {
        a
    } else {
        b
    }
}

pub open spec fn imin(a: int, b: int) -> int {
    if a <= b {
        a
    } else {
        b
    }
}

/// Which side of wall `id` the room lies on (`true`: the plus side), when known.
pub open spec fn interior_side(sides: Seq<(ElementId, bool)>, id: Seq<char>) -> Option<bool>
    decreases sides.len(),
{
    if sides.len() == 0 {
        None
    } else if sides[0].0@ == id {
        Some(sides[0].1)
    } else {
        interior_side(sides.drop_first(), id)
    }
}

/// The depth of the model's default stud.
pub open spec fn default_depth(m: BuildingModel) -> int {
    16 * nominal_inches(
        match stack_defaults(m.standards@, m.standards_packs@) {
            Some(d) => d,
            None => starter_defaults(),
        }.stud_profile,
    )
}

/// The wall's whole thickness: its system's layers, else the default stud.
pub open spec fn envelope_thickness(m: BuildingModel, w: Wall) -> int {
    let i = system_index(m.systems@, w.system@);
    if i >= 0 {
        thickness_sum(m.systems@[i].layers@, m.systems@[i].layers@.len() as int)
    } else {
        default_depth(m)
    }
}

/// The wall's framing depth: its system's framing layer, else the default stud.
pub open spec fn framing_thickness(m: BuildingModel, w: Wall) -> int {
    let i = system_index(m.systems@, w.system@);
    if i >= 0 {
        match first_layer_from(m.systems@[i].layers@, LayerFunction::Framing, LayerFunction::Framing, 0) {
            Some(f) => m.systems@[i].layers@[f].thickness.ticks as int,
            None => default_depth(m),
        }
    } else {
        default_depth(m)
    }
}

/// The thickness of the layers before the framing layer (none without one).
pub open spec fn framing_offset(m: BuildingModel, w: Wall) -> int {
    let i = system_index(m.systems@, w.system@);
    if i >= 0 {
        match first_layer_from(m.systems@[i].layers@, LayerFunction::Framing, LayerFunction::Framing, 0) {
            Some(f) => thickness_sum(m.systems@[i].layers@, f),
            None => 0,
        }
    } else {
        0
    }
}

/// How far, in half ticks, the chosen band of wall `w` reaches toward
/// `direction` from its centerline. A wall without a known room side stops at
/// its framing depth; a direction parallel to the wall falls back to the
/// band's full thickness.
pub open spec fn band_projection(m: BuildingModel, w: Wall, direction: (int, int), band: WallPhysicalBand, sides: Seq<(ElementId, bool)>) -> int {
    let side = side_axis(w);
    let ps = side.0 * direction.0 + side.1 * direction.1;
    match band {
        WallPhysicalBand::Envelope => {
            let half = envelope_thickness(m, w);
            if ps == 0 {
                envelope_thickness(m, w)
            } else {
                imax(-half * ps, half * ps)
            }
        },
        WallPhysicalBand::Framing => match interior_side(sides, w.id@) {
            None => framing_thickness(m, w),
            Some(plus) => {
                let total = envelope_thickness(m, w);
                let offset = framing_offset(m, w);
                let depth = framing_thickness(m, w);
                let s = if plus {
                    1int
                } else {
                    -1int
                };
                let interior = if plus {
                    total - 2 * offset
                } else {
                    -(total - 2 * offset)
                };
                let exterior = if plus {
                    total - 2 * (offset + depth)
                } else {
                    -(total - 2 * (offset + depth))
                };
                if ps == 0 {
                    framing_thickness(m, w)
                } else {
                    imax(imin(interior, exterior) * ps, imax(interior, exterior) * ps)
                }
            },
        },
    }
}

/// The wall's counter-clockwise boundary direction arrives at `point`.
pub open spec fn runs_into_ccw_corner(w: Wall, plus: bool, point: Point2) -> bool {
    if plus {
        w.end == point
    } else {
        w.start == point
    }
}

/// The wall that runs through at a corner join: the one whose room-winding
/// direction arrives at the corner when the room sides say so, else the one
/// with the smaller id. None when either wall is unknown.
pub open spec fn primary_through(m: BuildingModel, join: WallJoin, sides: Seq<(ElementId, bool)>) -> Option<Seq<char>> {
    let fi = key_index(m.walls@, join.first_wall@);
    let si = key_index(m.walls@, join.second_wall@);
    if fi < 0 || si < 0 {
        None
    } else {
        let first = m.walls@[fi];
        let second = m.walls@[si];
        let by_winding = if first.level@ == second.level@ && interior_side(sides, first.id@) is Some && interior_side(
            sides,
            second.id@,
        ) is Some {
            let a = runs_into_ccw_corner(first, interior_side(sides, first.id@)->0, join.point);
            let b = runs_into_ccw_corner(second, interior_side(sides, second.id@)->0, join.point);
            if a != b {
                Some(
                    if a {
                        first.id@
                    } else {
                        second.id@
                    },
                )
            } else {
                None
            }
        } else {
            None
        };
        match by_winding {
            Some(id) => Some(id),
            None => Some(
                if seq_le(first.id@, second.id@) {
                    first.id@
                } else {
                    second.id@
                },
            ),
        }
    }
}

/// A running maximum: the slot raised to `c`.
pub open spec fn raised(slot: Option<int>, c: int) -> Option<int> {
    Some(
        match slot {
            None => c,
            Some(v) => imax(v, c),
        },
    )
}

/// Start extension, start retraction, end extension, end retraction.
pub type SpanState = (Option<int>, Option<int>, Option<int>, Option<int>);

/// One join's effect on the wall's span.
pub open spec fn join_step(
    st: SpanState,
    m: BuildingModel,
    w: Wall,
    join: WallJoin,
    pass: CornerLapPass,
    band: WallPhysicalBand,
    sides: Seq<(ElementId, bool)>,
) -> SpanState {
    let at_start = w.start == join.point;
    let at_end = w.end == join.point;
    let other_id = if join.first_wall@ == w.id@ {
        Some(join.second_wall@)
    } else if join.second_wall@ == w.id@ {
        Some(join.first_wall@)
    } else {
        None
    };
    if !(at_start || at_end) || other_id is None || key_index(m.walls@, other_id->0) < 0 {
        st
    } else {
        let other = m.walls@[key_index(m.walls@, other_id->0)];
        let along = along_axis(w);
        if join.kind == WallJoinKind::Tee && !(other.start == join.point || other.end == join.point) {
            let direction = if at_start {
                along
            } else {
                negate(along)
            };
            let adjustment = band_projection(m, other, direction, band, sides);
            if at_start {
                (st.0, raised(st.1, adjustment), st.2, st.3)
            } else {
                (st.0, st.1, st.2, raised(st.3, adjustment))
            }
        } else if join.kind != WallJoinKind::Corner || primary_through(m, join, sides) is None {
            st
        } else {
            let primary = primary_through(m, join, sides)->0;
            let through = match pass {
                CornerLapPass::Primary => primary,
                CornerLapPass::Counter => if primary == join.first_wall@ {
                    join.second_wall@
                } else {
                    join.first_wall@
                },
            };
            let is_through = w.id@ == through;
            let direction = if is_through {
                if at_start {
                    negate(along)
                } else {
                    along
                }
            } else {
                if at_start {
                    along
                } else {
                    negate(along)
                }
            };
            let adjustment = band_projection(m, other, direction, band, sides);
            if at_start {
                if is_through {
                    (raised(st.0, adjustment), st.1, st.2, st.3)
                } else {
                    (st.0, raised(st.1, adjustment), st.2, st.3)
                }
            } else if is_through {
                (st.0, st.1, raised(st.2, adjustment), st.3)
            } else {
                (st.0, st.1, st.2, raised(st.3, adjustment))
            }
        }
    }
}

/// The effect of the model's first `k` joins.
pub open spec fn span_state(
    m: BuildingModel,
    w: Wall,
    pass: CornerLapPass,
    band: WallPhysicalBand,
    sides: Seq<(ElementId, bool)>,
    k: int,
) -> SpanState
    decreases k,
{
    if k <= 0 {
        (None, None, None, None)
    } else {
        join_step(span_state(m, w, pass, band, sides, k - 1), m, w, m.wall_joins@[k - 1], pass, band, sides)
    }
}

pub open spec fn or_zero(o: Option<int>) -> int {
    match o {
        Some(v) => v,
        None => 0,
    }
}

/// The wall's span in half ticks from its authored start: the start moves
/// back by the through extension and in by the butt retraction, the end
/// likewise; an inverted span collapses to the wall's midpoint.
pub open spec fn corner_span(
    m: BuildingModel,
    w: Wall,
    pass: CornerLapPass,
    band: WallPhysicalBand,
    sides: Seq<(ElementId, bool)>,
) -> (int, int) {
    let st = span_state(m, w, pass, band, sides, m.wall_joins@.len() as int);
    let start = or_zero(st.1) - or_zero(st.0);
    let end = w.length.ticks * 2 + or_zero(st.2) - or_zero(st.3);
    if start <= end {
        (start, end)
    } else {
        (w.length.ticks as int, w.length.ticks as int)
    }
}

fn sign_of(a: i64, b: i64) -> (r: i64)
    ensures
        r == sign(a as int, b as int),
{
    if b > a {
        1
    } else if b < a {
        -1
    } else {
        0
    }
}

fn lookup_side(sides: &Vec<(ElementId, bool)>, id: &ElementId) -> (r: Option<bool>)
    ensures
        r == interior_side(sides@, id@),
{
    let mut i: usize = 0;
    assert(sides@.subrange(0, sides@.len() as int) =~= sides@);
    while i < sides.len()
        invariant
            i <= sides@.len(),
            interior_side(sides@, id@) == interior_side(sides@.subrange(i as int, sides@.len() as int), id@),
        decreases sides@.len() - i,
    {
        let ghost rest = sides@.subrange(i as int, sides@.len() as int);
        assert(rest.drop_first() =~= sides@.subrange(i as int + 1, sides@.len() as int));
        if sides[i].0 == *id {
            return Some(sides[i].1);
        }
        i = i + 1;
    }
    None
}

proof fn lemma_framing_skip(layers: Seq<ConstructionLayer>, k: int)
    requires
        0 <= k <= layers.len(),
        forall|j: int| 0 <= j < k ==> (#[trigger] layers[j]).function != LayerFunction::Framing,
    ensures
        first_layer_from(layers, LayerFunction::Framing, LayerFunction::Framing, 0) == first_layer_from(
            layers,
            LayerFunction::Framing,
            LayerFunction::Framing,
            k,
        ),
    decreases k,
{
    if k > 0 {
        lemma_framing_skip(layers, k - 1);
    }
}

pub open spec fn widened(o: Option<i64>) -> Option<int> {
    match o {
        Some(v) => Some(v as int),
        None => None,
    }
}

pub open spec fn slot_fits(o: Option<i64>) -> bool {
    o matches Some(v) ==> -16 * span_bound() <= v <= 16 * span_bound()
}

fn update_max(slot: &mut Option<i64>, c: i64)
    ensures
        widened(*final(slot)) == raised(widened(*old(slot)), c as int),
        *final(slot) matches Some(v) && (v == c || *old(slot) == Some(v)),
{
    match *slot {
        None => {
            *slot = Some(c);
        },
        Some(v) => {
            if c > v {
                *slot = Some(c);
            }
        },
    }
}

fn unwrap_or_zero(o: Option<i64>) -> (r: i64)
    ensures
        r == or_zero(widened(o)),
{
    match o {
        Some(v) => v,
        None => 0,
    }
}

/// A framing member span in ticks from a span in half ticks: a half-tick
/// start rounds up and a half-tick end rounds down, so members never overlap.
pub open spec fn tick_span(span: (int, int)) -> (int, int) {
    ((span.0 + 1) / 2, span.1 / 2)
}

/// Rounding a half-tick span to ticks moves each face inward, never outward,
/// and does not depend on which end the wall was authored from: the span
/// mirrored about the wall's midpoint rounds to the mirrored tick span.
pub proof fn lemma_tick_span_inward_and_mirrored(span: (int, int), length: int)
    ensures
        span.0 <= 2 * tick_span(span).0 <= span.0 + 1,
        span.1 - 1 <= 2 * tick_span(span).1 <= span.1,
        tick_span((2 * length - span.1, 2 * length - span.0)) == (length - tick_span(span).1, length - tick_span(span).0),
{
}

/// A corner span in half ticks never runs backward: where the laps would
/// cross, it collapses to the wall's midpoint.
pub proof fn lemma_corner_span_ordered(
    m: BuildingModel,
    w: Wall,
    pass: CornerLapPass,
    band: WallPhysicalBand,
    sides: Seq<(ElementId, bool)>,
)
    ensures
        corner_span(m, w, pass, band, sides).0 <= corner_span(m, w, pass, band, sides).1,
{
}

/// The wall authored from its other end.
pub open spec fn wall_reversed(w: Wall) -> Wall {
    Wall { start: w.end, end: w.start, ..w }
}

/// Every room side seen from the other direction.
pub open spec fn sides_flipped(sides: Seq<(ElementId, bool)>) -> Seq<(ElementId, bool)> {
    sides.map_values(|e: (ElementId, bool)| (e.0, !e.1))
}

/// `m2` is `m` with every wall authored from its other end.
pub open spec fn models_mirrored(m: BuildingModel, m2: BuildingModel) -> bool {
    &&& m2.walls@ == m.walls@.map_values(|w: Wall| wall_reversed(w))
    &&& m2.wall_joins@ == m.wall_joins@
    &&& m2.systems@ == m.systems@
    &&& m2.standards@ == m.standards@
    &&& m2.standards_packs@ == m.standards_packs@
}

/// The span slots seen from the other end of the wall.
pub open spec fn slots_mirrored(st: SpanState) -> SpanState {
    (st.2, st.3, st.0, st.1)
}

proof fn lemma_interior_flipped(sides: Seq<(ElementId, bool)>, id: Seq<char>)
    ensures
        interior_side(sides_flipped(sides), id) == match interior_side(sides, id) {
            Some(b) => Some(!b),
            None => None,
        },
    decreases sides.len(),
{
    if sides.len() > 0 {
        assert(sides_flipped(sides).drop_first() =~= sides_flipped(sides.drop_first()));
        lemma_interior_flipped(sides.drop_first(), id);
    }
}

proof fn lemma_key_index_mirrored(walls: Seq<Wall>, id: Seq<char>)
    ensures
        key_index(walls.map_values(|w: Wall| wall_reversed(w)), id) == key_index(walls, id),
    decreases walls.len(),
{
    let r = walls.map_values(|w: Wall| wall_reversed(w));
    if walls.len() > 0 {
        assert(r.drop_first() =~= walls.drop_first().map_values(|w: Wall| wall_reversed(w)));
        lemma_key_index_mirrored(walls.drop_first(), id);
        assert(r[0] == wall_reversed(walls[0]));
    }
}

proof fn lemma_thickness_mirrored(m: BuildingModel, m2: BuildingModel, w: Wall)
    requires
        models_mirrored(m, m2),
    ensures
        envelope_thickness(m2, wall_reversed(w)) == envelope_thickness(m, w),
        framing_thickness(m2, wall_reversed(w)) == framing_thickness(m, w),
        framing_offset(m2, wall_reversed(w)) == framing_offset(m, w),
{
}

proof fn lemma_band_mirrored(
    m: BuildingModel,
    m2: BuildingModel,
    w: Wall,
    direction: (int, int),
    band: WallPhysicalBand,
    sides: Seq<(ElementId, bool)>,
)
    requires
        models_mirrored(m, m2),
    ensures
        band_projection(m2, wall_reversed(w), direction, band, sides_flipped(sides)) == band_projection(
            m,
            w,
            direction,
            band,
            sides,
        ),
{
    let w2 = wall_reversed(w);
    lemma_thickness_mirrored(m, m2, w);
    lemma_interior_flipped(sides, w.id@);
    let side = side_axis(w);
    let side2 = side_axis(w2);
    assert(side2.0 == -side.0 && side2.1 == -side.1);
    let ps = side.0 * direction.0 + side.1 * direction.1;
    let ps2 = side2.0 * direction.0 + side2.1 * direction.1;
    assert(ps2 == -ps) by (nonlinear_arith)
        requires
            side2.0 == -side.0,
            side2.1 == -side.1,
            ps == side.0 * direction.0 + side.1 * direction.1,
            ps2 == side2.0 * direction.0 + side2.1 * direction.1,
    ;
    let half = envelope_thickness(m, w);
    assert(-half * ps2 == half * ps && half * ps2 == -half * ps) by (nonlinear_arith)
        requires
            ps2 == -ps,
    ;
    assert(interior_side(sides_flipped(sides), w2.id@) == match interior_side(sides, w.id@) {
        Some(b) => Some(!b),
        None => None,
    });
    match band {
        WallPhysicalBand::Envelope => {
            assert(band_projection(m2, w2, direction, band, sides_flipped(sides)) == band_projection(m, w, direction, band, sides));
        },
        WallPhysicalBand::Framing => {
            match interior_side(sides, w.id@) {
                Some(plus) => {
                    let total = envelope_thickness(m, w);
                    let offset = framing_offset(m, w);
                    let depth = framing_thickness(m, w);
                    let sg = if plus {
                        1int
                    } else {
                        -1int
                    };
                    let sg2 = if !plus {
                        1int
                    } else {
                        -1int
                    };
                    assert(sg2 == -sg);
                    let interior = sg * (total - 2 * offset);
                    let exterior = sg * (total - 2 * (offset + depth));
                    let interior2 = sg2 * (total - 2 * offset);
                    let exterior2 = sg2 * (total - 2 * (offset + depth));
                    assert(interior2 == -interior && exterior2 == -exterior) by (nonlinear_arith)
                        requires
                            sg2 == -sg,
                            interior == sg * (total - 2 * offset),
                            exterior == sg * (total - 2 * (offset + depth)),
                            interior2 == sg2 * (total - 2 * offset),
                            exterior2 == sg2 * (total - 2 * (offset + depth)),
                    ;
                    let lo = imin(interior, exterior);
                    let hi = imax(interior, exterior);
                    assert(imin(interior2, exterior2) == -hi && imax(interior2, exterior2) == -lo);
                    assert((-hi) * ps2 == hi * ps && (-lo) * ps2 == lo * ps) by (nonlinear_arith)
                        requires
                            ps2 == -ps,
                    ;
                    assert(band_projection(m2, w2, direction, band, sides_flipped(sides)) == band_projection(m, w, direction, band, sides));
                },
                None => {
                    assert(band_projection(m2, w2, direction, band, sides_flipped(sides)) == band_projection(m, w, direction, band, sides));
                },
            }
        },
    }
}

proof fn lemma_primary_mirrored(m: BuildingModel, m2: BuildingModel, join: WallJoin, sides: Seq<(ElementId, bool)>)
    requires
        models_mirrored(m, m2),
    ensures
        primary_through(m2, join, sides_flipped(sides)) == primary_through(m, join, sides),
{
    lemma_key_index_mirrored(m.walls@, join.first_wall@);
    lemma_key_index_mirrored(m.walls@, join.second_wall@);
    let fi = key_index(m.walls@, join.first_wall@);
    let si = key_index(m.walls@, join.second_wall@);
    if fi >= 0 && si >= 0 {
        lemma_key_index_range(m.walls@, join.first_wall@);
        lemma_key_index_range(m.walls@, join.second_wall@);
        assert(m2.walls@[fi] == wall_reversed(m.walls@[fi]));
        assert(m2.walls@[si] == wall_reversed(m.walls@[si]));
        lemma_interior_flipped(sides, m.walls@[fi].id@);
        lemma_interior_flipped(sides, m.walls@[si].id@);
    }
}

proof fn lemma_key_index_range(walls: Seq<Wall>, id: Seq<char>)
    ensures
        key_index(walls, id) < walls.len(),
        key_index(walls, id) >= 0 ==> walls[key_index(walls, id)].id@ == id,
    decreases walls.len(),
{
    if walls.len() > 0 && walls[0].id@ != id {
        lemma_key_index_range(walls.drop_first(), id);
    }
}

proof fn lemma_step_mirrored(
    st: SpanState,
    m: BuildingModel,
    m2: BuildingModel,
    w: Wall,
    join: WallJoin,
    pass: CornerLapPass,
    band: WallPhysicalBand,
    sides: Seq<(ElementId, bool)>,
)
    requires
        models_mirrored(m, m2),
        w.start != w.end,
    ensures
        join_step(slots_mirrored(st), m2, wall_reversed(w), join, pass, band, sides_flipped(sides)) == slots_mirrored(
            join_step(st, m, w, join, pass, band, sides),
        ),
{
    let w2 = wall_reversed(w);
    assert(along_axis(w2) == negate(along_axis(w)));
    let other_id = if join.first_wall@ == w.id@ {
        Some(join.second_wall@)
    } else if join.second_wall@ == w.id@ {
        Some(join.first_wall@)
    } else {
        None
    };
    if other_id is Some {
        lemma_key_index_mirrored(m.walls@, other_id->0);
        let oi = key_index(m.walls@, other_id->0);
        if oi >= 0 {
            lemma_key_index_range(m.walls@, other_id->0);
            let other = m.walls@[oi];
            assert(m2.walls@[oi] == wall_reversed(other));
            lemma_band_mirrored(m, m2, other, along_axis(w), band, sides);
            lemma_band_mirrored(m, m2, other, negate(along_axis(w)), band, sides);
            assert(negate(negate(along_axis(w))) == along_axis(w));
        }
    }
    lemma_primary_mirrored(m, m2, join, sides);
}

proof fn lemma_state_mirrored(
    m: BuildingModel,
    m2: BuildingModel,
    w: Wall,
    pass: CornerLapPass,
    band: WallPhysicalBand,
    sides: Seq<(ElementId, bool)>,
    k: int,
)
    requires
        models_mirrored(m, m2),
        w.start != w.end,
        k <= m.wall_joins@.len(),
    ensures
        span_state(m2, wall_reversed(w), pass, band, sides_flipped(sides), k) == slots_mirrored(
            span_state(m, w, pass, band, sides, k),
        ),
    decreases k,
{
    if k > 0 {
        lemma_state_mirrored(m, m2, w, pass, band, sides, k - 1);
        lemma_step_mirrored(span_state(m, w, pass, band, sides, k - 1), m, m2, w, m.wall_joins@[k - 1], pass, band, sides);
    }
}

/// Where corners lap does not depend on which end each wall was authored
/// from: with every wall reversed and every room side seen from the other
/// direction, a wall's span is its old span mirrored about the midpoint.
pub proof fn lemma_corner_span_ignores_wall_direction(
    m: BuildingModel,
    m2: BuildingModel,
    w: Wall,
    pass: CornerLapPass,
    band: WallPhysicalBand,
    sides: Seq<(ElementId, bool)>,
)
    requires
        models_mirrored(m, m2),
        w.start != w.end,
    ensures
        corner_span(m2, wall_reversed(w), pass, band, sides_flipped(sides)) == (
            2 * w.length.ticks - corner_span(m, w, pass, band, sides).1,
            2 * w.length.ticks - corner_span(m, w, pass, band, sides).0,
        ),
{
    lemma_state_mirrored(m, m2, w, pass, band, sides, m.wall_joins@.len() as int);
}

/// The framing spans in ticks do not depend on which end each wall was
/// authored from either: the reversed wall's span is the old one mirrored
/// about the wall's length.
pub proof fn lemma_framing_span_ignores_wall_direction(
    m: BuildingModel,
    m2: BuildingModel,
    w: Wall,
    pass: CornerLapPass,
    sides: Seq<(ElementId, bool)>,
)
    requires
        models_mirrored(m, m2),
        w.start != w.end,
    ensures
        tick_span(corner_span(m2, wall_reversed(w), pass, WallPhysicalBand::Framing, sides_flipped(sides))) == (
            w.length.ticks - tick_span(corner_span(m, w, pass, WallPhysicalBand::Framing, sides)).1,
            w.length.ticks - tick_span(corner_span(m, w, pass, WallPhysicalBand::Framing, sides)).0,
        ),
{
    lemma_corner_span_ignores_wall_direction(m, m2, w, pass, WallPhysicalBand::Framing, sides);
    lemma_tick_span_inward_and_mirrored(corner_span(m, w, pass, WallPhysicalBand::Framing, sides), w.length.ticks as int);
}

/// One slot raised by an effect's value, if the effect names one.
pub open spec fn merged(slot: Option<int>, e: Option<int>) -> Option<int> {
    match e {
        None => slot,
        Some(c) => raised(slot, c),
    }
}

/// The state `st` with every slot raised by the matching slot of `e`.
pub open spec fn apply_effect(st: SpanState, e: SpanState) -> SpanState {
    (merged(st.0, e.0), merged(st.1, e.1), merged(st.2, e.2), merged(st.3, e.3))
}

/// The joins of `js` applied in order.
pub open spec fn joins_state(
    m: BuildingModel,
    w: Wall,
    pass: CornerLapPass,
    band: WallPhysicalBand,
    sides: Seq<(ElementId, bool)>,
    js: Seq<WallJoin>,
) -> SpanState
    decreases js.len(),
{
    if js.len() == 0 {
        (None, None, None, None)
    } else {
        join_step(joins_state(m, w, pass, band, sides, js.drop_last()), m, w, js.last(), pass, band, sides)
    }
}

/// `m2` is `m` with its joins listed in another order.
pub open spec fn joins_reordered(m: BuildingModel, m2: BuildingModel) -> bool {
    &&& m2.walls@ == m.walls@
    &&& m2.systems@ == m.systems@
    &&& m2.standards@ == m.standards@
    &&& m2.standards_packs@ == m.standards_packs@
    &&& m2.wall_joins@.to_multiset() == m.wall_joins@.to_multiset()
}

proof fn lemma_step_is_effect(
    st: SpanState,
    m: BuildingModel,
    w: Wall,
    join: WallJoin,
    pass: CornerLapPass,
    band: WallPhysicalBand,
    sides: Seq<(ElementId, bool)>,
)
    ensures
        join_step(st, m, w, join, pass, band, sides) == apply_effect(
            st,
            join_step((None, None, None, None), m, w, join, pass, band, sides),
        ),
{
}

proof fn lemma_merged_commute(s: Option<int>, a: Option<int>, b: Option<int>)
    ensures
        merged(merged(s, a), b) == merged(merged(s, b), a),
{
}

proof fn lemma_steps_commute(
    st: SpanState,
    m: BuildingModel,
    w: Wall,
    j1: WallJoin,
    j2: WallJoin,
    pass: CornerLapPass,
    band: WallPhysicalBand,
    sides: Seq<(ElementId, bool)>,
)
    ensures
        join_step(join_step(st, m, w, j1, pass, band, sides), m, w, j2, pass, band, sides) == join_step(
            join_step(st, m, w, j2, pass, band, sides),
            m,
            w,
            j1,
            pass,
            band,
            sides,
        ),
{
    let e1 = join_step((None, None, None, None), m, w, j1, pass, band, sides);
    let e2 = join_step((None, None, None, None), m, w, j2, pass, band, sides);
    lemma_step_is_effect(st, m, w, j1, pass, band, sides);
    lemma_step_is_effect(st, m, w, j2, pass, band, sides);
    lemma_step_is_effect(apply_effect(st, e1), m, w, j2, pass, band, sides);
    lemma_step_is_effect(apply_effect(st, e2), m, w, j1, pass, band, sides);
    lemma_merged_commute(st.0, e1.0, e2.0);
    lemma_merged_commute(st.1, e1.1, e2.1);
    lemma_merged_commute(st.2, e1.2, e2.2);
    lemma_merged_commute(st.3, e1.3, e2.3);
}

proof fn lemma_joins_state_move_last(
    m: BuildingModel,
    w: Wall,
    pass: CornerLapPass,
    band: WallPhysicalBand,
    sides: Seq<(ElementId, bool)>,
    js: Seq<WallJoin>,
    i: int,
)
    requires
        0 <= i < js.len(),
    ensures
        joins_state(m, w, pass, band, sides, js) == join_step(
            joins_state(m, w, pass, band, sides, js.remove(i)),
            m,
            w,
            js[i],
            pass,
            band,
            sides,
        ),
    decreases js.len(),
{
    if i == js.len() - 1 {
        assert(js.remove(i) =~= js.drop_last());
    } else {
        let front = js.drop_last();
        lemma_joins_state_move_last(m, w, pass, band, sides, front, i);
        assert(js.remove(i).drop_last() =~= front.remove(i));
        assert(js.remove(i).last() == js.last());
        assert(front[i] == js[i]);
        lemma_steps_commute(joins_state(m, w, pass, band, sides, front.remove(i)), m, w, js[i], js.last(), pass, band, sides);
    }
}

proof fn lemma_joins_state_permuted(
    m: BuildingModel,
    w: Wall,
    pass: CornerLapPass,
    band: WallPhysicalBand,
    sides: Seq<(ElementId, bool)>,
    js1: Seq<WallJoin>,
    js2: Seq<WallJoin>,
)
    requires
        js1.to_multiset() == js2.to_multiset(),
    ensures
        joins_state(m, w, pass, band, sides, js1) == joins_state(m, w, pass, band, sides, js2),
    decreases js1.len(),
{
    broadcast use vstd::seq_lib::group_to_multiset_ensures;

    vstd::seq_lib::to_multiset_len(js1);
    vstd::seq_lib::to_multiset_len(js2);
    if js1.len() == 0 {
        assert(js2.len() == 0);
    } else {
        let a = js1.last();
        assert(js1.to_multiset().contains(a)) by {
            assert(js1.contains(a)) by {
                assert(js1[js1.len() - 1] == a);
            }
        }
        assert(js2.contains(a));
        let i = choose|i: int| 0 <= i < js2.len() && js2[i] == a;
        assert(js1.remove(js1.len() - 1) =~= js1.drop_last());
        assert(js1.drop_last().to_multiset() == js2.remove(i).to_multiset());
        lemma_joins_state_permuted(m, w, pass, band, sides, js1.drop_last(), js2.remove(i));
        lemma_joins_state_move_last(m, w, pass, band, sides, js2, i);
    }
}

proof fn lemma_span_state_is_fold(
    m: BuildingModel,
    w: Wall,
    pass: CornerLapPass,
    band: WallPhysicalBand,
    sides: Seq<(ElementId, bool)>,
    k: int,
)
    requires
        0 <= k <= m.wall_joins@.len(),
    ensures
        span_state(m, w, pass, band, sides, k) == joins_state(m, w, pass, band, sides, m.wall_joins@.subrange(0, k)),
    decreases k,
{
    if k > 0 {
        lemma_span_state_is_fold(m, w, pass, band, sides, k - 1);
        assert(m.wall_joins@.subrange(0, k).drop_last() =~= m.wall_joins@.subrange(0, k - 1));
    }
}

proof fn lemma_joins_state_same_walls(
    m: BuildingModel,
    m2: BuildingModel,
    w: Wall,
    pass: CornerLapPass,
    band: WallPhysicalBand,
    sides: Seq<(ElementId, bool)>,
    js: Seq<WallJoin>,
)
    requires
        joins_reordered(m, m2),
    ensures
        joins_state(m2, w, pass, band, sides, js) == joins_state(m, w, pass, band, sides, js),
    decreases js.len(),
{
    if js.len() > 0 {
        lemma_joins_state_same_walls(m, m2, w, pass, band, sides, js.drop_last());
        let st = joins_state(m, w, pass, band, sides, js.drop_last());
        lemma_step_same_walls(st, m, m2, w, js.last(), pass, band, sides);
    }
}

/// Where corners lap does not depend on the order in which the model lists
/// its joins.
pub proof fn lemma_corner_span_ignores_join_order(
    m: BuildingModel,
    m2: BuildingModel,
    w: Wall,
    pass: CornerLapPass,
    band: WallPhysicalBand,
    sides: Seq<(ElementId, bool)>,
)
    requires
        joins_reordered(m, m2),
    ensures
        corner_span(m2, w, pass, band, sides) == corner_span(m, w, pass, band, sides),
{
    let js = m.wall_joins@;
    let js2 = m2.wall_joins@;
    lemma_span_state_is_fold(m, w, pass, band, sides, js.len() as int);
    lemma_span_state_is_fold(m2, w, pass, band, sides, js2.len() as int);
    assert(js.subrange(0, js.len() as int) =~= js);
    assert(js2.subrange(0, js2.len() as int) =~= js2);
    lemma_joins_state_same_walls(m, m2, w, pass, band, sides, js2);
    lemma_joins_state_permuted(m, w, pass, band, sides, js2, js);
    assert(js2.len() == js.len()) by {
        vstd::seq_lib::to_multiset_len(js);
        vstd::seq_lib::to_multiset_len(js2);
    }
}

/// The join with its two walls named the other way round.
pub open spec fn join_flipped(j: WallJoin) -> WallJoin {
    WallJoin { first_wall: j.second_wall, second_wall: j.first_wall, ..j }
}

/// `m2` is `m` with the two walls of every join named the other way round.
pub open spec fn joins_flipped(m: BuildingModel, m2: BuildingModel) -> bool {
    &&& m2.walls@ == m.walls@
    &&& m2.systems@ == m.systems@
    &&& m2.standards@ == m.standards@
    &&& m2.standards_packs@ == m.standards_packs@
    &&& m2.wall_joins@ == m.wall_joins@.map_values(|j: WallJoin| join_flipped(j))
}

proof fn lemma_key_index_found(walls: Seq<Wall>, k: Seq<char>)
    ensures
        key_index(walls, k) >= 0 ==> key_index(walls, k) < walls.len() && walls[key_index(walls, k)].id@ == k,
    decreases walls.len(),
{
    if walls.len() > 0 {
        lemma_key_index_found(walls.drop_first(), k);
    }
}

proof fn lemma_primary_flipped(m: BuildingModel, join: WallJoin, sides: Seq<(ElementId, bool)>)
    ensures
        primary_through(m, join_flipped(join), sides) == primary_through(m, join, sides),
        primary_through(m, join, sides) matches Some(p) ==> p == join.first_wall@ || p == join.second_wall@,
{
    lemma_key_index_found(m.walls@, join.first_wall@);
    lemma_key_index_found(m.walls@, join.second_wall@);
    let fi = key_index(m.walls@, join.first_wall@);
    let si = key_index(m.walls@, join.second_wall@);
    if fi >= 0 && si >= 0 {
        lemma_seq_lt_trichotomy(m.walls@[fi].id@, m.walls@[si].id@);
    }
}

proof fn lemma_step_flipped(
    st: SpanState,
    m: BuildingModel,
    w: Wall,
    join: WallJoin,
    pass: CornerLapPass,
    band: WallPhysicalBand,
    sides: Seq<(ElementId, bool)>,
)
    ensures
        join_step(st, m, w, join_flipped(join), pass, band, sides) == join_step(st, m, w, join, pass, band, sides),
{
    lemma_primary_flipped(m, join, sides);
}

proof fn lemma_state_flipped(
    m: BuildingModel,
    m2: BuildingModel,
    w: Wall,
    pass: CornerLapPass,
    band: WallPhysicalBand,
    sides: Seq<(ElementId, bool)>,
    k: int,
)
    requires
        joins_flipped(m, m2),
        0 <= k <= m.wall_joins@.len(),
    ensures
        span_state(m2, w, pass, band, sides, k) == span_state(m, w, pass, band, sides, k),
    decreases k,
{
    if k > 0 {
        lemma_state_flipped(m, m2, w, pass, band, sides, k - 1);
        let st = span_state(m, w, pass, band, sides, k - 1);
        let j = m.wall_joins@[k - 1];
        assert(m2.wall_joins@[k - 1] == join_flipped(j));
        lemma_step_flipped(st, m2, w, j, pass, band, sides);
        lemma_step_same_walls(st, m, m2, w, j, pass, band, sides);
    }
}

proof fn lemma_step_same_walls(
    st: SpanState,
    m: BuildingModel,
    m2: BuildingModel,
    w: Wall,
    join: WallJoin,
    pass: CornerLapPass,
    band: WallPhysicalBand,
    sides: Seq<(ElementId, bool)>,
)
    requires
        m2.walls@ == m.walls@,
        m2.systems@ == m.systems@,
        m2.standards@ == m.standards@,
        m2.standards_packs@ == m.standards_packs@,
    ensures
        join_step(st, m2, w, join, pass, band, sides) == join_step(st, m, w, join, pass, band, sides),
{
}

/// Where corners lap does not depend on which of its two walls a join names
/// first.
pub proof fn lemma_corner_span_ignores_join_wall_order(
    m: BuildingModel,
    m2: BuildingModel,
    w: Wall,
    pass: CornerLapPass,
    band: WallPhysicalBand,
    sides: Seq<(ElementId, bool)>,
)
    requires
        joins_flipped(m, m2),
    ensures
        corner_span(m2, w, pass, band, sides) == corner_span(m, w, pass, band, sides),
{
    lemma_state_flipped(m, m2, w, pass, band, sides, m.wall_joins@.len() as int);
}

/// `m2` is `m` with its walls listed in another order, no two walls sharing an id.
pub open spec fn walls_reordered(m: BuildingModel, m2: BuildingModel) -> bool {
    &&& m2.walls@.to_multiset() == m.walls@.to_multiset()
    &&& keys_of(m.walls@).no_duplicates()
    &&& m2.wall_joins@ == m.wall_joins@
    &&& m2.systems@ == m.systems@
    &&& m2.standards@ == m.standards@
    &&& m2.standards_packs@ == m.standards_packs@
}

proof fn lemma_lookup_rearranged(a: Seq<Wall>, b: Seq<Wall>, k: Seq<char>)
    requires
        a.to_multiset() == b.to_multiset(),
        keys_of(a).no_duplicates(),
    ensures
        key_index(a, k) >= 0 <==> key_index(b, k) >= 0,
        key_index(a, k) >= 0 ==> b[key_index(b, k)] == a[key_index(a, k)],
{
    lemma_keys_rearranged(a, b);
    lemma_no_duplicates_rearranged(keys_of(a), keys_of(b));
    if key_index(a, k) >= 0 {
        lemma_key_lookup_rearranged(a, b, k);
    }
    if key_index(b, k) >= 0 {
        lemma_key_lookup_rearranged(b, a, k);
    }
}

proof fn lemma_step_walls_rearranged(
    st: SpanState,
    m: BuildingModel,
    m2: BuildingModel,
    w: Wall,
    join: WallJoin,
    pass: CornerLapPass,
    band: WallPhysicalBand,
    sides: Seq<(ElementId, bool)>,
)
    requires
        walls_reordered(m, m2),
    ensures
        join_step(st, m2, w, join, pass, band, sides) == join_step(st, m, w, join, pass, band, sides),
{
    lemma_lookup_rearranged(m.walls@, m2.walls@, join.first_wall@);
    lemma_lookup_rearranged(m.walls@, m2.walls@, join.second_wall@);
    lemma_primary_walls_rearranged(m, m2, join, sides);
    let fi = key_index(m.walls@, join.first_wall@);
    let si = key_index(m.walls@, join.second_wall@);
    if fi >= 0 {
        lemma_bands_same_catalog(m, m2, m.walls@[fi], sides);
    }
    if si >= 0 {
        lemma_bands_same_catalog(m, m2, m.walls@[si], sides);
    }
}

proof fn lemma_bands_same_catalog(m: BuildingModel, m2: BuildingModel, other: Wall, sides: Seq<(ElementId, bool)>)
    requires
        m2.systems@ == m.systems@,
        m2.standards@ == m.standards@,
        m2.standards_packs@ == m.standards_packs@,
    ensures
        forall|direction: (int, int), band: WallPhysicalBand|
            #[trigger] band_projection(m2, other, direction, band, sides) == band_projection(m, other, direction, band, sides),
{
}

proof fn lemma_primary_walls_rearranged(m: BuildingModel, m2: BuildingModel, join: WallJoin, sides: Seq<(ElementId, bool)>)
    requires
        walls_reordered(m, m2),
    ensures
        primary_through(m2, join, sides) == primary_through(m, join, sides),
{
    lemma_lookup_rearranged(m.walls@, m2.walls@, join.first_wall@);
    lemma_lookup_rearranged(m.walls@, m2.walls@, join.second_wall@);
}

proof fn lemma_state_walls_rearranged(
    m: BuildingModel,
    m2: BuildingModel,
    w: Wall,
    pass: CornerLapPass,
    band: WallPhysicalBand,
    sides: Seq<(ElementId, bool)>,
    k: int,
)
    requires
        walls_reordered(m, m2),
        0 <= k <= m.wall_joins@.len(),
    ensures
        span_state(m2, w, pass, band, sides, k) == span_state(m, w, pass, band, sides, k),
    decreases k,
{
    if k > 0 {
        lemma_state_walls_rearranged(m, m2, w, pass, band, sides, k - 1);
        lemma_step_walls_rearranged(span_state(m, w, pass, band, sides, k - 1), m, m2, w, m.wall_joins@[k - 1], pass, band, sides);
    }
}

/// Where corners lap does not depend on the order in which the model lists
/// its walls, as long as no two walls share an id.
pub proof fn lemma_corner_span_ignores_wall_order(
    m: BuildingModel,
    m2: BuildingModel,
    w: Wall,
    pass: CornerLapPass,
    band: WallPhysicalBand,
    sides: Seq<(ElementId, bool)>,
)
    requires
        walls_reordered(m, m2),
    ensures
        corner_span(m2, w, pass, band, sides) == corner_span(m, w, pass, band, sides),
{
    lemma_state_walls_rearranged(m, m2, w, pass, band, sides, m.wall_joins@.len() as int);
}

fn floor_half(v: i64) -> (r: i64)
    ensures
        r == v as int / 2,
{
    if v >= 0 {
        let u = v as u64 / 2;
        assert(u == v as int / 2);
        u as i64
    } else {
        let u = (-(v + 1)) as u64 / 2;
        assert(-(u as int) - 1 == v as int / 2) by (nonlinear_arith)
            requires v < 0, u == (-(v + 1)) / 2;
        -(u as i64) - 1
    }
}

fn ceil_half(v: i64) -> (r: i64)
    ensures
        r == (v as int + 1) / 2,
{
    let f = floor_half(v);
    assert(v as int - 1 <= 2 * f <= v as int) by (nonlinear_arith)
        requires f == v as int / 2;
    assert(2 * f == v ==> f == (v as int + 1) / 2) by (nonlinear_arith)
        requires f == v as int / 2;
    assert(2 * f != v ==> f + 1 == (v as int + 1) / 2) by (nonlinear_arith)
        requires f == v as int / 2;
    if 2 * f != v {
        f + 1
    } else {
        f
    }
}

fn half_tick_span_to_lengths(span: (i64, i64)) -> (r: (Length, Length))
    ensures
        (r.0.ticks as int, r.1.ticks as int) == tick_span((span.0 as int, span.1 as int)),
{
    (Length::from_ticks(ceil_half(span.0)), Length::from_ticks(floor_half(span.1)))
}

impl BuildingModel {
    fn default_stud_depth(&self) -> (r: i64)
        ensures
            r == default_depth(*self),
            0 <= r <= 16 * 12,
    {
        self.framing_defaults().stud_profile.nominal_depth().ticks
    }

    fn wall_envelope_thickness(&self, wall: &Wall) -> (r: i64)
        requires
            corner_inputs_fit(*self),
        ensures
            r == envelope_thickness(*self, *wall),
            -span_bound() <= r <= span_bound(),
    {
        match self.system_for(wall) {
            Some(system) => {
                let ghost i = system_index(self.systems@, wall.system@);
                assert(layers_bounded(self.systems@[i].layers@));
                assert(-span_bound() <= thickness_sum(system.layers@, system.layers@.len() as int) <= span_bound());
                system.total_thickness().ticks
            },
            None => self.default_stud_depth(),
        }
    }

    fn wall_framing_thickness(&self, wall: &Wall) -> (r: i64)
        requires
            corner_inputs_fit(*self),
        ensures
            r == framing_thickness(*self, *wall),
            -span_bound() <= r <= span_bound(),
    {
        match self.system_for(wall) {
            Some(system) => {
                let ghost i = system_index(self.systems@, wall.system@);
                assert(layers_bounded(self.systems@[i].layers@));
                proof {
                    lemma_first_layer_from_range(system.layers@, LayerFunction::Framing, LayerFunction::Framing, 0);
                }
                match system.framing_layer() {
                    Some(layer) => {
                        let ghost f = first_layer_from(system.layers@, LayerFunction::Framing, LayerFunction::Framing, 0)->0;
                        assert(system.layers@[f] == *layer);
                        layer.thickness.ticks
                    },
                    None => self.default_stud_depth(),
                }
            },
            None => self.default_stud_depth(),
        }
    }

    fn wall_framing_offset(&self, wall: &Wall) -> (r: i64)
        requires
            corner_inputs_fit(*self),
        ensures
            r == framing_offset(*self, *wall),
            -span_bound() <= r <= span_bound(),
    {
        match self.system_for(wall) {
            Some(system) => {
                let ghost i = system_index(self.systems@, wall.system@);
                assert(layers_bounded(self.systems@[i].layers@));
                let mut offset: i64 = 0;
                let mut k: usize = 0;
                while k < system.layers.len()
                    invariant
                        k <= system.layers@.len(),
                        layers_bounded(system.layers@),
                        0 <= i < self.systems@.len(),
                        i == system_index(self.systems@, wall.system@),
                        *system == self.systems@[i],
                        offset == thickness_sum(system.layers@, k as int),
                        forall|j: int| 0 <= j < k ==> (#[trigger] system.layers@[j]).function != LayerFunction::Framing,
                    decreases system.layers@.len() - k,
                {
                    if system.layers[k].function == LayerFunction::Framing {
                        proof {
                            lemma_framing_skip(system.layers@, k as int);
                            assert(first_layer_from(system.layers@, LayerFunction::Framing, LayerFunction::Framing, k as int)
                                == Some(k as int));
                            assert(system.layers@ == self.systems@[i].layers@);
                            assert(framing_offset(*self, *wall) == thickness_sum(system.layers@, k as int));
                        }
                        return offset;
                    }
                    assert(-span_bound() <= thickness_sum(system.layers@, k as int + 1) <= span_bound());
                    offset = offset + system.layers[k].thickness.ticks;
                    k = k + 1;
                }
                proof {
                    lemma_framing_skip(system.layers@, k as int);
                }
                0
            },
            None => 0,
        }
    }

    fn wall_band_max_projection_half_ticks(
        &self,
        wall: &Wall,
        direction: (i64, i64),
        band: WallPhysicalBand,
        interior_sides: &Vec<(ElementId, bool)>,
    ) -> (r: i64)
        requires
            corner_inputs_fit(*self),
            -1 <= direction.0 <= 1,
            -1 <= direction.1 <= 1,
        ensures
            r == band_projection(*self, *wall, (direction.0 as int, direction.1 as int), band, interior_sides@),
            -16 * span_bound() <= r <= 16 * span_bound(),
    {
        let along = (sign_of(wall.start.x.ticks, wall.end.x.ticks), sign_of(wall.start.y.ticks, wall.end.y.ticks));
        let side = (-along.1, along.0);
        assert(-1 <= side.0 * direction.0 <= 1) by (nonlinear_arith)
            requires -1 <= side.0 <= 1, -1 <= direction.0 <= 1;
        assert(-1 <= side.1 * direction.1 <= 1) by (nonlinear_arith)
            requires -1 <= side.1 <= 1, -1 <= direction.1 <= 1;
        let projection_sign = side.0 * direction.0 + side.1 * direction.1;
        match band {
            WallPhysicalBand::Envelope => {
                let half = self.wall_envelope_thickness(wall);
                if projection_sign == 0 {
                    return half;
                }
                assert(-2 * span_bound() <= half * projection_sign <= 2 * span_bound()) by (nonlinear_arith)
                    requires -span_bound() <= half <= span_bound(), -2 <= projection_sign <= 2;
                assert(-2 * span_bound() <= -half * projection_sign <= 2 * span_bound()) by (nonlinear_arith)
                    requires -span_bound() <= half <= span_bound(), -2 <= projection_sign <= 2;
                let a = -half * projection_sign;
                let b = half * projection_sign;
                if a >= b {
                    a
                } else {
                    b
                }
            },
            WallPhysicalBand::Framing => {
                let depth = self.wall_framing_thickness(wall);
                let plus = match lookup_side(interior_sides, &wall.id) {
                    Some(p) => p,
                    None => {
                        return depth;
                    },
                };
                let total = self.wall_envelope_thickness(wall);
                let offset = self.wall_framing_offset(wall);
                let interior = if plus {
                    total - 2 * offset
                } else {
                    -(total - 2 * offset)
                };
                let exterior = if plus {
                    total - 2 * (offset + depth)
                } else {
                    -(total - 2 * (offset + depth))
                };
                if projection_sign == 0 {
                    return depth;
                }
                let lo = if interior <= exterior {
                    interior
                } else {
                    exterior
                };
                let hi = if interior >= exterior {
                    interior
                } else {
                    exterior
                };
                assert(-10 * span_bound() <= lo * projection_sign <= 10 * span_bound()) by (nonlinear_arith)
                    requires -5 * span_bound() <= lo <= 5 * span_bound(), -2 <= projection_sign <= 2;
                assert(-10 * span_bound() <= hi * projection_sign <= 10 * span_bound()) by (nonlinear_arith)
                    requires -5 * span_bound() <= hi <= 5 * span_bound(), -2 <= projection_sign <= 2;
                let a = lo * projection_sign;
                let b = hi * projection_sign;
                if a >= b {
                    a
                } else {
                    b
                }
            },
        }
    }

    fn primary_corner_through_wall(&self, join: &WallJoin, interior_sides: &Vec<(ElementId, bool)>) -> (r: Option<ElementId>)
        ensures
            match r {
                Some(id) => primary_through(*self, *join, interior_sides@) == Some(id@),
                None => primary_through(*self, *join, interior_sides@) is None,
            },
    {
        let fi = match position_of(&self.walls, join.first_wall.as_str()) {
            Some(i) => i,
            None => {
                return None;
            },
        };
        let si = match position_of(&self.walls, join.second_wall.as_str()) {
            Some(i) => i,
            None => {
                return None;
            },
        };
        let first = &self.walls[fi];
        let second = &self.walls[si];
        if first.level == second.level {
            match (lookup_side(interior_sides, &first.id), lookup_side(interior_sides, &second.id)) {
                (Some(first_plus), Some(second_plus)) => {
                    let first_incoming = if first_plus {
                        first.end == join.point
                    } else {
                        first.start == join.point
                    };
                    let second_incoming = if second_plus {
                        second.end == join.point
                    } else {
                        second.start == join.point
                    };
                    if first_incoming != second_incoming {
                        return Some(
                            if first_incoming {
                                first.id.clone()
                            } else {
                                second.id.clone()
                            },
                        );
                    }
                },
                _ => {},
            }
        }
        proof {
            lemma_seq_lt_trichotomy(first.id@, second.id@);
        }
        if !str_less(second.id.as_str(), first.id.as_str()) {
            Some(first.id.clone())
        } else {
            Some(second.id.clone())
        }
    }
    /// The wall's span in half ticks for one lap pass and band.
    fn wall_corner_span_half_ticks(
        &self,
        wall: &Wall,
        pass: CornerLapPass,
        band: WallPhysicalBand,
        interior_sides: &Vec<(ElementId, bool)>,
    ) -> (r: (i64, i64))
        requires
            corner_inputs_fit(*self),
            -8 * span_bound() <= wall.length.ticks <= 8 * span_bound(),
        ensures
            (r.0 as int, r.1 as int) == corner_span(*self, *wall, pass, band, interior_sides@),
    {
        let mut start_extension: Option<i64> = None;
        let mut start_retraction: Option<i64> = None;
        let mut end_extension: Option<i64> = None;
        let mut end_retraction: Option<i64> = None;
        let mut idx: usize = 0;
        while idx < self.wall_joins.len()
            invariant
                idx <= self.wall_joins@.len(),
                corner_inputs_fit(*self),
                (widened(start_extension), widened(start_retraction), widened(end_extension), widened(end_retraction))
                    == span_state(*self, *wall, pass, band, interior_sides@, idx as int),
                slot_fits(start_extension),
                slot_fits(start_retraction),
                slot_fits(end_extension),
                slot_fits(end_retraction),
            decreases self.wall_joins@.len() - idx,
        {
            let join = &self.wall_joins[idx];
            let ghost before = span_state(*self, *wall, pass, band, interior_sides@, idx as int);
            assert(span_state(*self, *wall, pass, band, interior_sides@, idx as int + 1) == join_step(
                before,
                *self,
                *wall,
                *join,
                pass,
                band,
                interior_sides@,
            ));
            idx = idx + 1;
            let at_start = wall.start == join.point;
            let at_end = wall.end == join.point;
            if !(at_start || at_end) {
                continue;
            }
            let other_id = if join.first_wall == wall.id {
                &join.second_wall
            } else if join.second_wall == wall.id {
                &join.first_wall
            } else {
                continue;
            };
            let oi = match position_of(&self.walls, other_id.as_str()) {
                Some(i) => i,
                None => {
                    continue;
                },
            };
            let other = &self.walls[oi];
            let along = (sign_of(wall.start.x.ticks, wall.end.x.ticks), sign_of(wall.start.y.ticks, wall.end.y.ticks));
            if join.kind == WallJoinKind::Tee && !(other.start == join.point || other.end == join.point) {
                let direction = if at_start {
                    along
                } else {
                    (-along.0, -along.1)
                };
                let adjustment = self.wall_band_max_projection_half_ticks(other, direction, band, interior_sides);
                if at_start {
                    update_max(&mut start_retraction, adjustment);
                } else {
                    update_max(&mut end_retraction, adjustment);
                }
                continue;
            }
            if join.kind != WallJoinKind::Corner {
                continue;
            }
            let primary = match self.primary_corner_through_wall(join, interior_sides) {
                Some(id) => id,
                None => {
                    continue;
                },
            };
            let through = match pass {
                CornerLapPass::Primary => primary,
                CornerLapPass::Counter => if primary == join.first_wall {
                    join.second_wall.clone()
                } else {
                    join.first_wall.clone()
                },
            };
            let is_through = wall.id == through;
            let direction = if is_through == at_start {
                (-along.0, -along.1)
            } else {
                along
            };
            let adjustment = self.wall_band_max_projection_half_ticks(other, direction, band, interior_sides);
            if at_start {
                if is_through {
                    update_max(&mut start_extension, adjustment);
                } else {
                    update_max(&mut start_retraction, adjustment);
                }
            } else if is_through {
                update_max(&mut end_extension, adjustment);
            } else {
                update_max(&mut end_retraction, adjustment);
            }
        }
        let start = unwrap_or_zero(start_retraction) - unwrap_or_zero(start_extension);
        let end = wall.length.ticks * 2 + unwrap_or_zero(end_extension) - unwrap_or_zero(end_retraction);
        if start <= end {
            (start, end)
        } else {
            (wall.length.ticks, wall.length.ticks)
        }
    }
    /// The span of the wall's studs, bottom plate and lower top plate, in
    /// ticks from its authored start: structural joins meet at framing-layer
    /// faces. `interior_sides` says for each wall of the level which side the
    /// room lies on (`true`: the side to the left of start-to-end).
    pub fn wall_framing_span(&self, wall: &Wall, interior_sides: &Vec<(ElementId, bool)>) -> (r: (Length, Length))
        requires
            corner_inputs_fit(*self),
            -8 * span_bound() <= wall.length.ticks <= 8 * span_bound(),
        ensures
            (r.0.ticks as int, r.1.ticks as int) == tick_span(
                corner_span(*self, *wall, CornerLapPass::Primary, WallPhysicalBand::Framing, interior_sides@),
            ),
    {
        let span = self.wall_corner_span_half_ticks(wall, CornerLapPass::Primary, WallPhysicalBand::Framing, interior_sides);
        half_tick_span_to_lengths(span)
    }

    /// The span of the upper member of a double top plate: the corner lap with
    /// the through and butt roles reversed, so its seam staggers over the
    /// primary plate's seam.
    pub fn wall_counter_lap_framing_span(&self, wall: &Wall, interior_sides: &Vec<(ElementId, bool)>) -> (r: (Length, Length))
        requires
            corner_inputs_fit(*self),
            -8 * span_bound() <= wall.length.ticks <= 8 * span_bound(),
        ensures
            (r.0.ticks as int, r.1.ticks as int) == tick_span(
                corner_span(*self, *wall, CornerLapPass::Counter, WallPhysicalBand::Framing, interior_sides@),
            ),
    {
        let span = self.wall_corner_span_half_ticks(wall, CornerLapPass::Counter, WallPhysicalBand::Framing, interior_sides);
        half_tick_span_to_lengths(span)
    }
    /// The span of the wall's finished envelope in half ticks (1/32") from
    /// its authored start: corners lap at the faces of the whole wall
    /// thickness.
    pub fn wall_envelope_span(&self, wall: &Wall, interior_sides: &Vec<(ElementId, bool)>) -> (r: (i64, i64))
        requires
            corner_inputs_fit(*self),
            -8 * span_bound() <= wall.length.ticks <= 8 * span_bound(),
        ensures
            (r.0 as int, r.1 as int) == corner_span(
                *self,
                *wall,
                CornerLapPass::Primary,
                WallPhysicalBand::Envelope,
                interior_sides@,
            ),
    {
        self.wall_corner_span_half_ticks(wall, CornerLapPass::Primary, WallPhysicalBand::Envelope, interior_sides)
    }
}

} // verus!
