//! Walls and what they host: levels, openings, dimension constraints with their
//! anchors, wall joins, and rooms.

use vstd::prelude::*;

use crate::constraints::{unconstrained, elimination_bound, coeffs_within, lemma_elimination_bound_grows, lemma_distinct_within,
    lemma_term_count_within, 
    coeff_combo, dependence_witness, depends_on, key_views, ConstraintSystem, ConstraintVariable, LinearConstraint, LinearExpression,
    VarKey, VariableValues,
};
use crate::element::{id_views, insert_unique_id, valid_id, validate_element_id, ElementId};
use crate::error::ModelError;
use crate::standards::{BracedPanel, FramingDefaults};
use crate::units::{truncating_div, Length, Point2};

verus! {

/// Whether `x` fits in an `i64`.
pub open spec fn fits(x: int) -> bool {
    i64::MIN <= x <= i64::MAX
}

/// `|x|`.
pub open spec fn abs_int(x: int) -> int {
    if x < 0 {
        -x
    } else {
        x
    }
}

// ---------------------------------------------------------------------------
// Levels
// ---------------------------------------------------------------------------

/// A storey: its floor `elevation` and the `height` up to its top plane
/// (zero until authored).
#[derive(Debug)]
pub struct Level {
    pub id: ElementId,
    pub name: String,
    pub elevation: Length,
    pub height: Length,
}

impl Level {
    pub fn new(id: &str, name: &str, elevation: Length) -> (r: Level)
        ensures
            r.id@ == id@,
            r.name@ == name@,
            r.elevation == elevation,
            r.height.ticks == 0,
    {
        Level { id: ElementId::from_str(id), name: name.to_owned(), elevation, height: Length::zero() }
    }

    /// The same level with its top plane at `elevation + height`.
    pub fn with_height(self, height: Length) -> (r: Level)
        ensures
            r.id == self.id,
            r.name == self.name,
            r.elevation == self.elevation,
            r.height == height,
    {
        Level { height, ..self }
    }
}

impl Clone for Level {
    fn clone(&self) -> (r: Self)
        ensures
            r.id == self.id,
            r.name@ == self.name@,
            r.elevation == self.elevation,
            r.height == self.height,
    {
        Level { id: self.id.clone(), name: self.name.clone(), elevation: self.elevation, height: self.height }
    }
}

/// The id of the default level.
pub fn default_level_id() -> (r: ElementId)
    ensures
        r@ == "level-1"@,
{
    ElementId::from_str("level-1")
}

// ---------------------------------------------------------------------------
// Openings
// ---------------------------------------------------------------------------

#[derive(Debug, Clone, Copy, PartialEq, Eq, Structural)]
pub enum OpeningKind {
    Door,
    Window,
    GarageDoor,
    Skylight,
    Stair,
}

/// A door or window in a wall, positioned by its `center` along the wall.
#[derive(Debug)]
pub struct Opening {
    pub id: ElementId,
    pub name: String,
    pub kind: OpeningKind,
    pub center: Length,
    pub width: Length,
    pub height: Length,
    pub sill_height: Length,
}

impl Clone for Opening {
    fn clone(&self) -> (r: Self)
        ensures
            r.id == self.id,
            r.name@ == self.name@,
            r.kind == self.kind,
            r.center == self.center,
            r.width == self.width,
            r.height == self.height,
            r.sill_height == self.sill_height,
    {
        Opening {
            id: self.id.clone(),
            name: self.name.clone(),
            kind: self.kind,
            center: self.center,
            width: self.width,
            height: self.height,
            sill_height: self.sill_height,
        }
    }
}

/// The left edge: `center − width / 2` (division truncating toward zero).
pub open spec fn opening_left(o: Opening) -> int {
    o.center.ticks - truncating_div(o.width.ticks as int, 2)
}

/// The right edge: `center + width / 2`.
pub open spec fn opening_right(o: Opening) -> int {
    o.center.ticks + truncating_div(o.width.ticks as int, 2)
}

/// The head height: `sill_height + height`.
pub open spec fn opening_top(o: Opening) -> int {
    o.sill_height.ticks + o.height.ticks
}

/// `x / 2` rounded toward zero, on machine integers.
fn half_i128(x: i128) -> (r: i128)
    requires
        fits(x as int),
    ensures
        r == truncating_div(x as int, 2),
{
    if x >= 0 {
        x / 2
    } else {
        -((-x) / 2)
    }
}

/// The left edge in exact arithmetic.
fn left_wide(o: &Opening) -> (r: i128)
    ensures
        r == opening_left(*o),
{
    o.center.ticks as i128 - half_i128(o.width.ticks as i128)
}

/// The right edge in exact arithmetic.
fn right_wide(o: &Opening) -> (r: i128)
    ensures
        r == opening_right(*o),
{
    o.center.ticks as i128 + half_i128(o.width.ticks as i128)
}

/// The head height in exact arithmetic.
fn top_wide(o: &Opening) -> (r: i128)
    ensures
        r == opening_top(*o),
{
    o.sill_height.ticks as i128 + o.height.ticks as i128
}

impl Opening {
    /// A door: no sill.
    pub fn door(id: &str, name: &str, center: Length, width: Length, height: Length) -> (r: Opening)
        ensures
            r.id@ == id@,
            r.name@ == name@,
            r.kind == OpeningKind::Door,
            r.center == center,
            r.width == width,
            r.height == height,
            r.sill_height.ticks == 0,
    {
        Opening {
            id: ElementId::from_str(id),
            name: name.to_owned(),
            kind: OpeningKind::Door,
            center,
            width,
            height,
            sill_height: Length::zero(),
        }
    }

    pub fn window(id: &str, name: &str, center: Length, width: Length, height: Length, sill_height: Length) -> (r: Opening)
        ensures
            r.id@ == id@,
            r.name@ == name@,
            r.kind == OpeningKind::Window,
            r.center == center,
            r.width == width,
            r.height == height,
            r.sill_height == sill_height,
    {
        Opening { id: ElementId::from_str(id), name: name.to_owned(), kind: OpeningKind::Window, center, width, height, sill_height }
    }

    pub fn with_kind(self, kind: OpeningKind) -> (r: Opening)
        ensures
            r.kind == kind,
            r.id == self.id,
            r.name == self.name,
            r.center == self.center,
            r.width == self.width,
            r.height == self.height,
            r.sill_height == self.sill_height,
    {
        Opening { kind, ..self }
    }

    pub fn left(&self) -> (r: Length)
        requires
            fits(opening_left(*self)),
        ensures
            r.ticks == opening_left(*self),
    {
        Length { ticks: left_wide(self) as i64 }
    }

    pub fn right(&self) -> (r: Length)
        requires
            fits(opening_right(*self)),
        ensures
            r.ticks == opening_right(*self),
    {
        Length { ticks: right_wide(self) as i64 }
    }

    pub fn top(&self) -> (r: Length)
        requires
            fits(opening_top(*self)),
        ensures
            r.ticks == opening_top(*self),
    {
        Length { ticks: top_wide(self) as i64 }
    }

    /// Doors and garage doors stand on the floor; every other kind has a sill.
    pub fn has_sill(&self) -> (r: bool)
        ensures
            r == !(self.kind == OpeningKind::Door || self.kind == OpeningKind::GarageDoor),
    {
        match self.kind {
            OpeningKind::Door | OpeningKind::GarageDoor => false,
            _ => true,
        }
    }
}

// ---------------------------------------------------------------------------
// Dimensions
// ---------------------------------------------------------------------------

#[derive(Debug, Clone, Copy, PartialEq, Eq, Structural)]
pub enum DimensionKind {
    Driving,
    Reference,
}

#[derive(Debug, Clone, Copy, PartialEq, Eq, Structural)]
pub enum DimensionAxis {
    Horizontal,
    Vertical,
}

impl DimensionAxis {
    pub fn is_horizontal(&self) -> (r: bool)
        ensures
            r == (*self == DimensionAxis::Horizontal),
    {
        match self {
            DimensionAxis::Horizontal => true,
            DimensionAxis::Vertical => false,
        }
    }
}

#[derive(Debug, Clone, Copy, PartialEq, Eq, Structural)]
pub enum DimensionDirection {
    Forward,
    Backward,
}

#[derive(Debug, Clone, Copy, PartialEq, Eq, Structural)]
pub enum DimensionHorizontalReference {
    Left,
    Center,
    Right,
}

#[derive(Debug, Clone, Copy, PartialEq, Eq, Structural)]
pub enum DimensionVerticalReference {
    Bottom,
    Center,
    Top,
}

/// Where a dimension starts or ends: a wall end, an edge or center of an
/// opening, or a reference point of the wall or an opening.
#[derive(Debug)]
pub enum DimensionAnchor {
    WallStart,
    WallEnd,
    OpeningLeft { opening: ElementId },
    OpeningCenter { opening: ElementId },
    OpeningRight { opening: ElementId },
    WallPoint { horizontal: DimensionHorizontalReference, vertical: DimensionVerticalReference },
    OpeningPoint { opening: ElementId, horizontal: DimensionHorizontalReference, vertical: DimensionVerticalReference },
}

impl Clone for DimensionAnchor {
    fn clone(&self) -> (r: Self)
        ensures
            r == *self,
    {
        match self {
            DimensionAnchor::WallStart => DimensionAnchor::WallStart,
            DimensionAnchor::WallEnd => DimensionAnchor::WallEnd,
            DimensionAnchor::OpeningLeft { opening } => DimensionAnchor::OpeningLeft { opening: opening.clone() },
            DimensionAnchor::OpeningCenter { opening } => DimensionAnchor::OpeningCenter { opening: opening.clone() },
            DimensionAnchor::OpeningRight { opening } => DimensionAnchor::OpeningRight { opening: opening.clone() },
            DimensionAnchor::WallPoint { horizontal, vertical } => DimensionAnchor::WallPoint {
                horizontal: *horizontal,
                vertical: *vertical,
            },
            DimensionAnchor::OpeningPoint { opening, horizontal, vertical } => DimensionAnchor::OpeningPoint {
                opening: opening.clone(),
                horizontal: *horizontal,
                vertical: *vertical,
            },
        }
    }
}

/// The opening an anchor refers to, if any.
pub open spec fn anchor_opening(a: DimensionAnchor) -> Option<Seq<char>> {
    match a {
        DimensionAnchor::OpeningLeft { opening } => Some(opening@),
        DimensionAnchor::OpeningCenter { opening } => Some(opening@),
        DimensionAnchor::OpeningRight { opening } => Some(opening@),
        DimensionAnchor::OpeningPoint { opening, .. } => Some(opening@),
        _ => None,
    }
}

/// Two anchors name the same place.
pub open spec fn same_anchor(a: DimensionAnchor, b: DimensionAnchor) -> bool {
    match (a, b) {
        (DimensionAnchor::WallStart, DimensionAnchor::WallStart) => true,
        (DimensionAnchor::WallEnd, DimensionAnchor::WallEnd) => true,
        (DimensionAnchor::OpeningLeft { opening: x }, DimensionAnchor::OpeningLeft { opening: y }) => x@ == y@,
        (DimensionAnchor::OpeningCenter { opening: x }, DimensionAnchor::OpeningCenter { opening: y }) => x@ == y@,
        (DimensionAnchor::OpeningRight { opening: x }, DimensionAnchor::OpeningRight { opening: y }) => x@ == y@,
        (
            DimensionAnchor::WallPoint { horizontal: h1, vertical: v1 },
            DimensionAnchor::WallPoint { horizontal: h2, vertical: v2 },
        ) => h1 == h2 && v1 == v2,
        (
            DimensionAnchor::OpeningPoint { opening: x, horizontal: h1, vertical: v1 },
            DimensionAnchor::OpeningPoint { opening: y, horizontal: h2, vertical: v2 },
        ) => x@ == y@ && h1 == h2 && v1 == v2,
        _ => false,
    }
}

fn anchors_equal(a: &DimensionAnchor, b: &DimensionAnchor) -> (r: bool)
    ensures
        r == same_anchor(*a, *b),
{
    match (a, b) {
        (DimensionAnchor::WallStart, DimensionAnchor::WallStart) => true,
        (DimensionAnchor::WallEnd, DimensionAnchor::WallEnd) => true,
        (DimensionAnchor::OpeningLeft { opening: x }, DimensionAnchor::OpeningLeft { opening: y }) => *x == *y,
        (DimensionAnchor::OpeningCenter { opening: x }, DimensionAnchor::OpeningCenter { opening: y }) => *x == *y,
        (DimensionAnchor::OpeningRight { opening: x }, DimensionAnchor::OpeningRight { opening: y }) => *x == *y,
        (
            DimensionAnchor::WallPoint { horizontal: h1, vertical: v1 },
            DimensionAnchor::WallPoint { horizontal: h2, vertical: v2 },
        ) => *h1 == *h2 && *v1 == *v2,
        (
            DimensionAnchor::OpeningPoint { opening: x, horizontal: h1, vertical: v1 },
            DimensionAnchor::OpeningPoint { opening: y, horizontal: h2, vertical: v2 },
        ) => *x == *y && *h1 == *h2 && *v1 == *v2,
        _ => false,
    }
}

impl DimensionAnchor {
    pub fn references_opening(&self, opening_id: &ElementId) -> (r: bool)
        ensures
            r == (anchor_opening(*self) == Some(opening_id@)),
    {
        match self {
            DimensionAnchor::OpeningLeft { opening } => *opening == *opening_id,
            DimensionAnchor::OpeningCenter { opening } => *opening == *opening_id,
            DimensionAnchor::OpeningRight { opening } => *opening == *opening_id,
            DimensionAnchor::OpeningPoint { opening, .. } => *opening == *opening_id,
            _ => false,
        }
    }

    /// Rejects an anchor on an opening that is not among `opening_ids`.
    fn validate(&self, opening_ids: &Vec<ElementId>) -> (r: Result<(), ModelError>)
        ensures
            r is Ok <==> (anchor_opening(*self) matches Some(o) ==> id_views(opening_ids@).contains(o)),
            r matches Err(e) ==> e is DimensionReferencesUnknownOpening,
    {
        let opening = match self {
            DimensionAnchor::OpeningLeft { opening } => Some(opening),
            DimensionAnchor::OpeningCenter { opening } => Some(opening),
            DimensionAnchor::OpeningRight { opening } => Some(opening),
            DimensionAnchor::OpeningPoint { opening, .. } => Some(opening),
            _ => None,
        };
        match opening {
            Some(o) => {
                if crate::element::contains_id(opening_ids, o) {
                    Ok(())
                } else {
                    Err(ModelError::DimensionReferencesUnknownOpening { opening: o.clone() })
                }
            },
            None => Ok(()),
        }
    }
}

/// A measured or driving distance between two anchors on a wall.
#[derive(Debug)]
pub struct DimensionConstraint {
    pub id: ElementId,
    pub name: String,
    pub kind: DimensionKind,
    pub axis: DimensionAxis,
    pub start: DimensionAnchor,
    pub end: DimensionAnchor,
    pub direction: DimensionDirection,
    pub line_offset: Option<Length>,
    pub value: Option<Length>,
}

impl Clone for DimensionConstraint {
    fn clone(&self) -> (r: Self)
        ensures
            r.id == self.id,
            r.name@ == self.name@,
            r.kind == self.kind,
            r.axis == self.axis,
            r.start == self.start,
            r.end == self.end,
            r.direction == self.direction,
            r.line_offset == self.line_offset,
            r.value == self.value,
    {
        DimensionConstraint {
            id: self.id.clone(),
            name: self.name.clone(),
            kind: self.kind,
            axis: self.axis,
            start: self.start.clone(),
            end: self.end.clone(),
            direction: self.direction,
            line_offset: self.line_offset,
            value: self.value,
        }
    }
}

/// What `DimensionConstraint::validate` accepts.
pub open spec fn dimension_valid(d: DimensionConstraint, opening_ids: Seq<Seq<char>>, wall_length: int, wall_height: int) -> bool {
    &&& valid_id(d.id@)
    &&& (anchor_opening(d.start) matches Some(o) ==> opening_ids.contains(o))
    &&& (anchor_opening(d.end) matches Some(o) ==> opening_ids.contains(o))
    &&& !same_anchor(d.start, d.end)
    &&& match d.kind {
        DimensionKind::Driving => d.value matches Some(v) && 0 < v.ticks <= (match d.axis {
            DimensionAxis::Horizontal => wall_length,
            DimensionAxis::Vertical => wall_height,
        }),
        DimensionKind::Reference => d.value is None,
    }
}

impl DimensionConstraint {
    pub fn new(
        id: &str,
        name: &str,
        kind: DimensionKind,
        start: DimensionAnchor,
        end: DimensionAnchor,
        direction: DimensionDirection,
        value: Option<Length>,
    ) -> (r: DimensionConstraint)
        ensures
            r.id@ == id@,
            r.name@ == name@,
            r.kind == kind,
            r.axis == DimensionAxis::Horizontal,
            r.start == start,
            r.end == end,
            r.direction == direction,
            r.line_offset is None,
            r.value == value,
    {
        DimensionConstraint {
            id: ElementId::from_str(id),
            name: name.to_owned(),
            kind,
            axis: DimensionAxis::Horizontal,
            start,
            end,
            direction,
            line_offset: None,
            value,
        }
    }

    pub fn with_axis(self, axis: DimensionAxis) -> (r: DimensionConstraint)
        ensures
            r == (DimensionConstraint { axis, ..self }),
    {
        DimensionConstraint { axis, ..self }
    }

    pub fn with_line_offset(self, line_offset: Length) -> (r: DimensionConstraint)
        ensures
            r == (DimensionConstraint { line_offset: Some(line_offset), ..self }),
    {
        DimensionConstraint { line_offset: Some(line_offset), ..self }
    }

    pub fn references_opening(&self, opening: &ElementId) -> (r: bool)
        ensures
            r == (anchor_opening(self.start) == Some(opening@) || anchor_opening(self.end) == Some(opening@)),
    {
        self.start.references_opening(opening) || self.end.references_opening(opening)
    }

    /// Checks the id, that both anchors exist and differ, and that a driving
    /// dimension has a positive value within the wall (a reference dimension none).
    fn validate(&self, opening_ids: &Vec<ElementId>, wall_length: Length, wall_height: Length) -> (r: Result<(), ModelError>)
        ensures
            r is Ok <==> dimension_valid(*self, id_views(opening_ids@), wall_length.ticks as int, wall_height.ticks as int),
    {
        validate_element_id(&self.id)?;
        self.start.validate(opening_ids)?;
        self.end.validate(opening_ids)?;
        if anchors_equal(&self.start, &self.end) {
            return Err(ModelError::DimensionReferencesSameAnchor { dimension: self.id.clone() });
        }
        match self.kind {
            DimensionKind::Driving => {
                let value = match self.value {
                    Some(v) => v,
                    None => {
                        return Err(ModelError::DrivingDimensionMissingValue { dimension: self.id.clone() });
                    },
                };
                let bound = match self.axis {
                    DimensionAxis::Horizontal => wall_length,
                    DimensionAxis::Vertical => wall_height,
                };
                if value.ticks <= 0 || value.ticks > bound.ticks {
                    return Err(ModelError::InvalidDimensionValue { dimension: self.id.clone() });
                }
            },
            DimensionKind::Reference => {
                if self.value.is_some() {
                    return Err(ModelError::ReferenceDimensionHasValue { dimension: self.id.clone() });
                }
            },
        }
        Ok(())
    }
}

// ---------------------------------------------------------------------------
// Wall joins and rooms
// ---------------------------------------------------------------------------

#[derive(Debug, Clone, Copy, PartialEq, Eq, Structural)]
pub enum WallJoinKind {
    Corner,
    EndToEnd,
    Tee,
    Cross,
}

/// Which endpoint of a wall an edit targets.
#[derive(Debug, Clone, Copy, PartialEq, Eq, Structural)]
pub enum WallEnd {
    Start,
    End,
}

/// Where two walls meet.
#[derive(Debug)]
pub struct WallJoin {
    pub id: ElementId,
    pub name: String,
    pub kind: WallJoinKind,
    pub first_wall: ElementId,
    pub second_wall: ElementId,
    pub point: Point2,
}

impl Clone for WallJoin {
    fn clone(&self) -> (r: Self)
        ensures
            r.id == self.id,
            r.name@ == self.name@,
            r.kind == self.kind,
            r.first_wall == self.first_wall,
            r.second_wall == self.second_wall,
            r.point == self.point,
    {
        WallJoin {
            id: self.id.clone(),
            name: self.name.clone(),
            kind: self.kind,
            first_wall: self.first_wall.clone(),
            second_wall: self.second_wall.clone(),
            point: self.point,
        }
    }
}

impl WallJoin {
    pub fn new(id: &str, name: &str, kind: WallJoinKind, first_wall: &str, second_wall: &str, point: Point2) -> (r: WallJoin)
        ensures
            r.id@ == id@,
            r.name@ == name@,
            r.kind == kind,
            r.first_wall@ == first_wall@,
            r.second_wall@ == second_wall@,
            r.point == point,
    {
        WallJoin {
            id: ElementId::from_str(id),
            name: name.to_owned(),
            kind,
            first_wall: ElementId::from_str(first_wall),
            second_wall: ElementId::from_str(second_wall),
            point,
        }
    }

    /// A corner join.
    pub fn corner(id: &str, name: &str, first_wall: &str, second_wall: &str, point: Point2) -> (r: WallJoin)
        ensures
            r.id@ == id@,
            r.name@ == name@,
            r.kind == WallJoinKind::Corner,
            r.first_wall@ == first_wall@,
            r.second_wall@ == second_wall@,
            r.point == point,
    {
        WallJoin::new(id, name, WallJoinKind::Corner, first_wall, second_wall, point)
    }

    /// Valid ids, and two different walls.
    pub fn validate(&self) -> (r: Result<(), ModelError>)
        ensures
            r is Ok <==> (valid_id(self.id@) && valid_id(self.first_wall@) && valid_id(self.second_wall@)
                && self.first_wall@ != self.second_wall@),
            r matches Err(e) ==> (e is InvalidElementId || e is JoinReferencesSameWall),
    {
        validate_element_id(&self.id)?;
        validate_element_id(&self.first_wall)?;
        validate_element_id(&self.second_wall)?;
        if self.first_wall == self.second_wall {
            return Err(ModelError::JoinReferencesSameWall { join: self.id.clone() });
        }
        Ok(())
    }
}

/// How a room is used.
#[derive(Debug, Clone, Copy, PartialEq, Eq, Structural)]
pub enum RoomUsage {
    Unspecified,
    Living,
    Bedroom,
    Bathroom,
    Kitchen,
    Dining,
    Office,
    Hallway,
    Closet,
    Utility,
    Garage,
    Other,
}

impl Default for RoomUsage {
    fn default() -> (r: Self)
        ensures
            r == RoomUsage::Unspecified,
    {
        RoomUsage::Unspecified
    }
}

impl RoomUsage {
    pub fn label(self) -> (r: &'static str)
        ensures
            r@ == match self {
                RoomUsage::Unspecified => "Unspecified"@,
                RoomUsage::Living => "Living"@,
                RoomUsage::Bedroom => "Bedroom"@,
                RoomUsage::Bathroom => "Bathroom"@,
                RoomUsage::Kitchen => "Kitchen"@,
                RoomUsage::Dining => "Dining"@,
                RoomUsage::Office => "Office"@,
                RoomUsage::Hallway => "Hallway"@,
                RoomUsage::Closet => "Closet"@,
                RoomUsage::Utility => "Utility"@,
                RoomUsage::Garage => "Garage"@,
                RoomUsage::Other => "Other"@,
            },
    {
        match self {
            RoomUsage::Unspecified => "Unspecified",
            RoomUsage::Living => "Living",
            RoomUsage::Bedroom => "Bedroom",
            RoomUsage::Bathroom => "Bathroom",
            RoomUsage::Kitchen => "Kitchen",
            RoomUsage::Dining => "Dining",
            RoomUsage::Office => "Office",
            RoomUsage::Hallway => "Hallway",
            RoomUsage::Closet => "Closet",
            RoomUsage::Utility => "Utility",
            RoomUsage::Garage => "Garage",
            RoomUsage::Other => "Other",
        }
    }
}

/// An authored room: identity and a seed point inside it; its boundary is
/// derived from the surrounding walls.
#[derive(Debug, Clone)]
pub struct Room {
    pub id: ElementId,
    pub name: String,
    pub usage: RoomUsage,
    pub level: ElementId,
    pub seed: Point2,
    pub tags: Vec<String>,
}

impl Room {
    pub fn new(id: &str, name: &str, usage: RoomUsage, level: &str, seed: Point2) -> (r: Room)
        ensures
            r.id@ == id@,
            r.name@ == name@,
            r.usage == usage,
            r.level@ == level@,
            r.seed == seed,
            r.tags@.len() == 0,
    {
        Room {
            id: ElementId::from_str(id),
            name: name.to_owned(),
            usage,
            level: ElementId::from_str(level),
            seed,
            tags: Vec::new(),
        }
    }
}


// ---------------------------------------------------------------------------
// Walls
// ---------------------------------------------------------------------------

/// A straight wall on a level, from `start` to `end`, hosting openings,
/// bracing panels and dimensions.
#[derive(Debug, Clone)]
pub struct Wall {
    pub id: ElementId,
    pub name: String,
    pub level: ElementId,
    pub start: Point2,
    pub end: Point2,
    pub length: Length,
    pub height: Length,
    pub system: ElementId,
    pub openings: Vec<Opening>,
    pub bracing: Vec<BracedPanel>,
    pub dimensions: Vec<DimensionConstraint>,
    pub tags: Vec<String>,
}

/// The axis-aligned length between two points, `None` unless they differ along
/// exactly one axis.
pub open spec fn placement_length_spec(s: Point2, e: Point2) -> Option<int> {
    if s.y == e.y && s.x != e.x {
        Some(abs_int(e.x.ticks - s.x.ticks))
    } else if s.x == e.x && s.y != e.y {
        Some(abs_int(e.y.ticks - s.y.ticks))
    } else {
        None
    }
}

/// The placement length fits in an `i64` whenever there is one.
pub open spec fn placement_fits(s: Point2, e: Point2) -> bool {
    placement_length_spec(s, e) matches Some(l) ==> l <= i64::MAX
}

/// Position `i` holds the first opening with id `id`.
pub open spec fn is_first_opening(s: Seq<Opening>, id: Seq<char>, i: int) -> bool {
    &&& 0 <= i < s.len()
    &&& s[i].id@ == id
    &&& forall|j: int| 0 <= j < i ==> s[j].id@ != id
}

/// The first opening with id `id`, if any.
pub open spec fn opening_lookup(s: Seq<Opening>, id: Seq<char>) -> Option<Opening> {
    if exists|i: int| is_first_opening(s, id, i) {
        Some(s[choose|i: int| is_first_opening(s, id, i)])
    } else {
        None
    }
}

proof fn lemma_first_opening_unique(s: Seq<Opening>, id: Seq<char>, i: int)
    requires
        is_first_opening(s, id, i),
    ensures
        opening_lookup(s, id) == Some(s[i]),
{
    let k = choose|k: int| is_first_opening(s, id, k);
    if k < i {
        assert(s[k].id@ != id);
    } else if k > i {
        assert(s[i].id@ != id);
    }
}

/// The position of the first opening with id `id`.
fn find_opening(openings: &Vec<Opening>, id: &ElementId) -> (r: Option<usize>)
    ensures
        r matches Some(i) ==> is_first_opening(openings@, id@, i as int) && opening_lookup(openings@, id@) == Some(openings@[i as int]),
        r is None ==> opening_lookup(openings@, id@) is None && forall|j: int| 0 <= j < openings@.len() ==> openings@[j].id@ != id@,
{
    let mut i: usize = 0;
    while i < openings.len()
        invariant
            i <= openings.len(),
            forall|j: int| 0 <= j < i ==> openings@[j].id@ != id@,
        decreases openings.len() - i,
    {
        if openings[i].id == *id {
            proof {
                lemma_first_opening_unique(openings@, id@, i as int);
            }
            return Some(i);
        }
        i = i + 1;
    }
    None
}

/// An opening's horizontal reference coordinate along the wall.
pub open spec fn opening_h_coord(o: Opening, h: DimensionHorizontalReference) -> int {
    match h {
        DimensionHorizontalReference::Left => opening_left(o),
        DimensionHorizontalReference::Center => o.center.ticks as int,
        DimensionHorizontalReference::Right => opening_right(o),
    }
}

/// An opening's vertical reference coordinate above the wall bottom.
pub open spec fn opening_v_coord(o: Opening, v: DimensionVerticalReference) -> int {
    match v {
        DimensionVerticalReference::Bottom => o.sill_height.ticks as int,
        DimensionVerticalReference::Center => o.sill_height.ticks + truncating_div(o.height.ticks as int, 2),
        DimensionVerticalReference::Top => opening_top(o),
    }
}

/// A wall's horizontal reference coordinate.
pub open spec fn wall_h_coord(w: Wall, h: DimensionHorizontalReference) -> int {
    match h {
        DimensionHorizontalReference::Left => 0,
        DimensionHorizontalReference::Center => truncating_div(w.length.ticks as int, 2),
        DimensionHorizontalReference::Right => w.length.ticks as int,
    }
}

/// A wall's vertical reference coordinate.
pub open spec fn wall_v_coord(w: Wall, v: DimensionVerticalReference) -> int {
    match v {
        DimensionVerticalReference::Bottom => 0,
        DimensionVerticalReference::Center => truncating_div(w.height.ticks as int, 2),
        DimensionVerticalReference::Top => w.height.ticks as int,
    }
}

/// Where an anchor lies along the wall, if its opening exists.
#[verifier::opaque]
pub open spec fn anchor_x(a: DimensionAnchor, w: Wall) -> Option<int> {
    match a {
        DimensionAnchor::WallStart => Some(0),
        DimensionAnchor::WallEnd => Some(w.length.ticks as int),
        DimensionAnchor::OpeningLeft { opening } => match opening_lookup(w.openings@, opening@) {
            Some(o) => Some(opening_left(o)),
            None => None,
        },
        DimensionAnchor::OpeningCenter { opening } => match opening_lookup(w.openings@, opening@) {
            Some(o) => Some(o.center.ticks as int),
            None => None,
        },
        DimensionAnchor::OpeningRight { opening } => match opening_lookup(w.openings@, opening@) {
            Some(o) => Some(opening_right(o)),
            None => None,
        },
        DimensionAnchor::WallPoint { horizontal, .. } => Some(wall_h_coord(w, horizontal)),
        DimensionAnchor::OpeningPoint { opening, horizontal, .. } => match opening_lookup(w.openings@, opening@) {
            Some(o) => Some(opening_h_coord(o, horizontal)),
            None => None,
        },
    }
}

/// How high an anchor lies above the wall bottom, if its opening exists.
#[verifier::opaque]
pub open spec fn anchor_y(a: DimensionAnchor, w: Wall) -> Option<int> {
    match a {
        DimensionAnchor::WallStart => Some(0),
        DimensionAnchor::WallEnd => Some(0),
        DimensionAnchor::OpeningLeft { opening } => match opening_lookup(w.openings@, opening@) {
            Some(o) => Some(opening_v_coord(o, DimensionVerticalReference::Center)),
            None => None,
        },
        DimensionAnchor::OpeningCenter { opening } => match opening_lookup(w.openings@, opening@) {
            Some(o) => Some(opening_v_coord(o, DimensionVerticalReference::Center)),
            None => None,
        },
        DimensionAnchor::OpeningRight { opening } => match opening_lookup(w.openings@, opening@) {
            Some(o) => Some(opening_v_coord(o, DimensionVerticalReference::Center)),
            None => None,
        },
        DimensionAnchor::WallPoint { vertical, .. } => Some(wall_v_coord(w, vertical)),
        DimensionAnchor::OpeningPoint { opening, vertical, .. } => match opening_lookup(w.openings@, opening@) {
            Some(o) => Some(opening_v_coord(o, vertical)),
            None => None,
        },
    }
}

/// The anchor's coordinate on `axis`.
pub open spec fn anchor_coord(a: DimensionAnchor, w: Wall, axis: DimensionAxis) -> Option<int> {
    match axis {
        DimensionAxis::Horizontal => anchor_x(a, w),
        DimensionAxis::Vertical => anchor_y(a, w),
    }
}

/// `(expected, actual)` offsets of a driving dimension with a value and resolvable anchors.
pub open spec fn dimension_offsets(w: Wall, d: DimensionConstraint) -> Option<(int, int)> {
    if d.kind != DimensionKind::Driving || d.value is None || anchor_coord(d.start, w, d.axis) is None
        || anchor_coord(d.end, w, d.axis) is None {
        None
    } else {
        Some((
            match d.direction {
                DimensionDirection::Forward => d.value->0.ticks as int,
                DimensionDirection::Backward => -d.value->0.ticks,
            },
            anchor_coord(d.end, w, d.axis)->0 - anchor_coord(d.start, w, d.axis)->0,
        ))
    }
}

/// Every anchor coordinate is within `±2^66`: sums of two `i64` values at most.
pub open spec fn coord_bounded(c: int) -> bool {
    -0x4_0000_0000_0000_0000 <= c <= 0x4_0000_0000_0000_0000
}

fn opening_h_wide(o: &Opening, h: DimensionHorizontalReference) -> (r: i128)
    ensures
        r == opening_h_coord(*o, h),
{
    match h {
        DimensionHorizontalReference::Left => left_wide(o),
        DimensionHorizontalReference::Center => o.center.ticks as i128,
        DimensionHorizontalReference::Right => right_wide(o),
    }
}

fn opening_v_wide(o: &Opening, v: DimensionVerticalReference) -> (r: i128)
    ensures
        r == opening_v_coord(*o, v),
{
    match v {
        DimensionVerticalReference::Bottom => o.sill_height.ticks as i128,
        DimensionVerticalReference::Center => o.sill_height.ticks as i128 + half_i128(o.height.ticks as i128),
        DimensionVerticalReference::Top => top_wide(o),
    }
}

impl DimensionAnchor {
    fn x_wide(&self, wall: &Wall) -> (r: Option<i128>)
        ensures
            r matches Some(x) ==> anchor_x(*self, *wall) == Some(x as int),
            r is None ==> anchor_x(*self, *wall) is None,
            r matches Some(c) ==> coord_bounded(c as int),
    {
        reveal(anchor_x);
        match self {
            DimensionAnchor::WallStart => Some(0),
            DimensionAnchor::WallEnd => Some(wall.length.ticks as i128),
            DimensionAnchor::OpeningLeft { opening } => match find_opening(&wall.openings, opening) {
                Some(i) => Some(left_wide(&wall.openings[i])),
                None => None,
            },
            DimensionAnchor::OpeningCenter { opening } => match find_opening(&wall.openings, opening) {
                Some(i) => Some(wall.openings[i].center.ticks as i128),
                None => None,
            },
            DimensionAnchor::OpeningRight { opening } => match find_opening(&wall.openings, opening) {
                Some(i) => Some(right_wide(&wall.openings[i])),
                None => None,
            },
            DimensionAnchor::WallPoint { horizontal, .. } => Some(match horizontal {
                DimensionHorizontalReference::Left => 0,
                DimensionHorizontalReference::Center => half_i128(wall.length.ticks as i128),
                DimensionHorizontalReference::Right => wall.length.ticks as i128,
            }),
            DimensionAnchor::OpeningPoint { opening, horizontal, .. } => match find_opening(&wall.openings, opening) {
                Some(i) => Some(opening_h_wide(&wall.openings[i], *horizontal)),
                None => None,
            },
        }
    }

    fn y_wide(&self, wall: &Wall) -> (r: Option<i128>)
        ensures
            r matches Some(y) ==> anchor_y(*self, *wall) == Some(y as int),
            r is None ==> anchor_y(*self, *wall) is None,
            r matches Some(c) ==> coord_bounded(c as int),
    {
        reveal(anchor_y);
        match self {
            DimensionAnchor::WallStart => Some(0),
            DimensionAnchor::WallEnd => Some(0),
            DimensionAnchor::OpeningLeft { opening } => match find_opening(&wall.openings, opening) {
                Some(i) => Some(opening_v_wide(&wall.openings[i], DimensionVerticalReference::Center)),
                None => None,
            },
            DimensionAnchor::OpeningCenter { opening } => match find_opening(&wall.openings, opening) {
                Some(i) => Some(opening_v_wide(&wall.openings[i], DimensionVerticalReference::Center)),
                None => None,
            },
            DimensionAnchor::OpeningRight { opening } => match find_opening(&wall.openings, opening) {
                Some(i) => Some(opening_v_wide(&wall.openings[i], DimensionVerticalReference::Center)),
                None => None,
            },
            DimensionAnchor::WallPoint { vertical, .. } => Some(match vertical {
                DimensionVerticalReference::Bottom => 0,
                DimensionVerticalReference::Center => half_i128(wall.height.ticks as i128),
                DimensionVerticalReference::Top => wall.height.ticks as i128,
            }),
            DimensionAnchor::OpeningPoint { opening, vertical, .. } => match find_opening(&wall.openings, opening) {
                Some(i) => Some(opening_v_wide(&wall.openings[i], *vertical)),
                None => None,
            },
        }
    }

    fn coord_wide(&self, wall: &Wall, axis: DimensionAxis) -> (r: Option<i128>)
        ensures
            r matches Some(c) ==> anchor_coord(*self, *wall, axis) == Some(c as int),
            r is None ==> anchor_coord(*self, *wall, axis) is None,
            r matches Some(c) ==> coord_bounded(c as int),
    {
        match axis {
            DimensionAxis::Horizontal => self.x_wide(wall),
            DimensionAxis::Vertical => self.y_wide(wall),
        }
    }

    /// Where the anchor lies along the wall; `None` when its opening is missing.
    pub fn local_x(&self, wall: &Wall) -> (r: Option<Length>)
        requires
            anchor_x(*self, *wall) matches Some(x) ==> fits(x),
        ensures
            r matches Some(l) ==> anchor_x(*self, *wall) == Some(l.ticks as int),
            r is None ==> anchor_x(*self, *wall) is None,
    {
        match self.x_wide(wall) {
            Some(x) => Some(Length { ticks: x as i64 }),
            None => None,
        }
    }

    /// How high the anchor lies; `None` when its opening is missing.
    pub fn local_y(&self, wall: &Wall) -> (r: Option<Length>)
        requires
            anchor_y(*self, *wall) matches Some(y) ==> fits(y),
        ensures
            r matches Some(l) ==> anchor_y(*self, *wall) == Some(l.ticks as int),
            r is None ==> anchor_y(*self, *wall) is None,
    {
        match self.y_wide(wall) {
            Some(y) => Some(Length { ticks: y as i64 }),
            None => None,
        }
    }

    pub fn coordinate(&self, wall: &Wall, axis: DimensionAxis) -> (r: Option<Length>)
        requires
            anchor_coord(*self, *wall, axis) matches Some(c) ==> fits(c),
        ensures
            r matches Some(l) ==> anchor_coord(*self, *wall, axis) == Some(l.ticks as int),
            r is None ==> anchor_coord(*self, *wall, axis) is None,
    {
        match axis {
            DimensionAxis::Horizontal => self.local_x(wall),
            DimensionAxis::Vertical => self.local_y(wall),
        }
    }

    /// `(x, y)` of the anchor on the wall.
    pub fn point(&self, wall: &Wall) -> (r: Option<(Length, Length)>)
        requires
            anchor_x(*self, *wall) matches Some(x) ==> fits(x),
            anchor_y(*self, *wall) matches Some(y) ==> fits(y),
        ensures
            r matches Some((x, y)) ==> anchor_x(*self, *wall) == Some(x.ticks as int) && anchor_y(*self, *wall) == Some(y.ticks as int),
            r is None ==> anchor_x(*self, *wall) is None || anchor_y(*self, *wall) is None,
    {
        let x = match self.local_x(wall) {
            Some(x) => x,
            None => {
                return None;
            },
        };
        let y = match self.local_y(wall) {
            Some(y) => y,
            None => {
                return None;
            },
        };
        Some((x, y))
    }
}

/// `|a − b|` of two `i64` values, in exact arithmetic.
fn abs_diff_wide(a: i64, b: i64) -> (r: i128)
    ensures
        r == abs_int(a - b),
{
    let d = a as i128 - b as i128;
    if d < 0 {
        -d
    } else {
        d
    }
}

/// `a·b` is exactly representable in `i64` for the given exact value.
pub open spec fn point_on_segment_fits(w: Wall, p: Point2) -> bool {
    let ex = w.end.x.ticks - w.start.x.ticks;
    let ey = w.end.y.ticks - w.start.y.ticks;
    let ox = p.x.ticks - w.start.x.ticks;
    let oy = p.y.ticks - w.start.y.ticks;
    &&& fits(ex) && fits(ey) && fits(ox) && fits(oy)
    &&& fits(ex * oy) && fits(ey * ox) && fits(ex * oy - ey * ox)
    &&& fits(ox * ex) && fits(oy * ey) && fits(ox * ex + oy * ey)
    &&& fits(ex * ex) && fits(ey * ey) && fits(ex * ex + ey * ey)
}

/// `p` lies on the closed segment from `w.start` to `w.end`.
pub open spec fn on_wall_segment(w: Wall, p: Point2) -> bool {
    let ex = w.end.x.ticks - w.start.x.ticks;
    let ey = w.end.y.ticks - w.start.y.ticks;
    let ox = p.x.ticks - w.start.x.ticks;
    let oy = p.y.ticks - w.start.y.ticks;
    &&& ex * oy - ey * ox == 0
    &&& 0 <= ox * ex + oy * ey <= ex * ex + ey * ey
}

/// The point at `x` along the wall from its start (toward its end).
pub open spec fn point_at_spec(w: Wall, x: int) -> (int, int) {
    if w.start.y == w.end.y {
        (w.start.x.ticks + (if w.end.x.ticks >= w.start.x.ticks { x } else { -x }), w.start.y.ticks as int)
    } else {
        (w.start.x.ticks as int, w.start.y.ticks + (if w.end.y.ticks >= w.start.y.ticks { x } else { -x }))
    }
}

/// The distance along the wall to `p`, when `p` lies on the wall's line within its length.
pub open spec fn local_x_spec(w: Wall, p: Point2) -> Option<int> {
    let x = if w.start.y == w.end.y && p.y == w.start.y {
        Some(abs_int(p.x.ticks - w.start.x.ticks))
    } else if w.start.x == w.end.x && p.x == w.start.x {
        Some(abs_int(p.y.ticks - w.start.y.ticks))
    } else {
        None
    };
    match x {
        Some(v) => if v <= w.length.ticks { Some(v) } else { None },
        None => None,
    }
}

impl Wall {
    /// A wall of `length` on the default level along +x from the origin, as tall as the defaults say.
    pub fn new(id: &str, name: &str, length: Length, defaults: &FramingDefaults) -> (r: Wall)
        ensures
            r.id@ == id@,
            r.name@ == name@,
            r.level@ == "level-1"@,
            r.start == (Point2 { x: Length { ticks: 0 }, y: Length { ticks: 0 } }),
            r.end == (Point2 { x: length, y: Length { ticks: 0 } }),
            r.length == length,
            r.height == defaults.default_wall_height,
            r.system@ == "system-wall-exterior-1"@,
            r.openings@.len() == 0,
            r.bracing@.len() == 0,
            r.dimensions@.len() == 0,
            r.tags@.len() == 0,
    {
        Wall {
            id: ElementId::from_str(id),
            name: name.to_owned(),
            level: default_level_id(),
            start: Point2::new(Length::zero(), Length::zero()),
            end: Point2::new(length, Length::zero()),
            length,
            height: defaults.default_wall_height,
            system: ElementId::from_str("system-wall-exterior-1"),
            openings: Vec::new(),
            bracing: Vec::new(),
            dimensions: Vec::new(),
            tags: Vec::new(),
        }
    }

    /// The same wall placed on `level` from `start` to `end`; its length follows
    /// the placement when that is axis-aligned.
    pub fn with_placement(self, level: &str, start: Point2, end: Point2) -> (r: Wall)
        requires
            placement_fits(start, end),
        ensures
            r.level@ == level@,
            r.start == start,
            r.end == end,
            r.length.ticks == match placement_length_spec(start, end) {
                Some(l) => l,
                None => self.length.ticks as int,
            },
            r.id == self.id,
            r.name == self.name,
            r.height == self.height,
            r.system == self.system,
            r.openings == self.openings,
            r.bracing == self.bracing,
            r.dimensions == self.dimensions,
            r.tags == self.tags,
    {
        let mut wall = Wall { level: ElementId::from_str(level), start, end, ..self };
        match wall.placement_length() {
            Some(length) => {
                wall.length = length;
            },
            None => {},
        }
        wall
    }

    /// The length implied by the placement, when it is axis-aligned.
    pub fn placement_length(&self) -> (r: Option<Length>)
        requires
            placement_fits(self.start, self.end),
        ensures
            r matches Some(l) ==> placement_length_spec(self.start, self.end) == Some(l.ticks as int),
            r is None ==> placement_length_spec(self.start, self.end) is None,
    {
        if self.start.y.ticks == self.end.y.ticks && self.start.x.ticks != self.end.x.ticks {
            Some(Length { ticks: abs_diff_wide(self.end.x.ticks, self.start.x.ticks) as i64 })
        } else if self.start.x.ticks == self.end.x.ticks && self.start.y.ticks != self.end.y.ticks {
            Some(Length { ticks: abs_diff_wide(self.end.y.ticks, self.start.y.ticks) as i64 })
        } else {
            None
        }
    }

    /// The point at distance `x` from the start, toward the end.
    pub fn point_at_local_x(&self, x: Length) -> (r: Point2)
        requires
            fits(point_at_spec(*self, x.ticks as int).0),
            fits(point_at_spec(*self, x.ticks as int).1),
            x.ticks > i64::MIN,
        ensures
            (r.x.ticks as int, r.y.ticks as int) == point_at_spec(*self, x.ticks as int),
    {
        if self.start.y.ticks == self.end.y.ticks {
            let offset: i64 = if self.end.x.ticks >= self.start.x.ticks { x.ticks } else { -x.ticks };
            Point2::new(Length { ticks: self.start.x.ticks + offset }, self.start.y)
        } else {
            let offset: i64 = if self.end.y.ticks >= self.start.y.ticks { x.ticks } else { -x.ticks };
            Point2::new(self.start.x, Length { ticks: self.start.y.ticks + offset })
        }
    }

    /// The distance from the start to `point` when it lies on the wall's line, within the wall.
    pub fn local_x_for_point(&self, point: Point2) -> (r: Option<Length>)
        ensures
            r matches Some(l) ==> local_x_spec(*self, point) == Some(l.ticks as int),
            r is None ==> local_x_spec(*self, point) is None,
    {
        let x: Option<i128> = if self.start.y.ticks == self.end.y.ticks && point.y.ticks == self.start.y.ticks {
            Some(abs_diff_wide(point.x.ticks, self.start.x.ticks))
        } else if self.start.x.ticks == self.end.x.ticks && point.x.ticks == self.start.x.ticks {
            Some(abs_diff_wide(point.y.ticks, self.start.y.ticks))
        } else {
            None
        };
        match x {
            Some(v) => {
                if v <= self.length.ticks as i128 {
                    Some(Length { ticks: v as i64 })
                } else {
                    None
                }
            },
            None => None,
        }
    }

    pub fn has_endpoint(&self, point: Point2) -> (r: bool)
        ensures
            r == (self.start == point || self.end == point),
    {
        self.start == point || self.end == point
    }

    /// Whether `point` lies on the wall's segment, endpoints included.
    pub fn point_on_segment(&self, point: Point2) -> (r: bool)
        requires
            point_on_segment_fits(*self, point),
        ensures
            r == on_wall_segment(*self, point),
    {
        let edge_x = self.end.x.ticks - self.start.x.ticks;
        let edge_y = self.end.y.ticks - self.start.y.ticks;
        let offset_x = point.x.ticks - self.start.x.ticks;
        let offset_y = point.y.ticks - self.start.y.ticks;
        if edge_x * offset_y - edge_y * offset_x != 0 {
            return false;
        }
        let projection = offset_x * edge_x + offset_y * edge_y;
        projection >= 0 && projection <= edge_x * edge_x + edge_y * edge_y
    }

    /// Whether `point` lies on the segment but is not an endpoint.
    pub fn point_on_interior(&self, point: Point2) -> (r: bool)
        requires
            point_on_segment_fits(*self, point),
        ensures
            r == (on_wall_segment(*self, point) && !(self.start == point || self.end == point)),
    {
        self.point_on_segment(point) && !self.has_endpoint(point)
    }

    /// `|end − start|` of a dimension's anchors on its axis.
    pub fn dimension_measurement(&self, dimension: &DimensionConstraint) -> (r: Option<Length>)
        requires
            anchor_coord(dimension.start, *self, dimension.axis) matches Some(s) ==> (anchor_coord(
                dimension.end,
                *self,
                dimension.axis,
            ) matches Some(e) ==> abs_int(e - s) <= i64::MAX),
        ensures
            r matches Some(l) ==> (anchor_coord(dimension.start, *self, dimension.axis) matches Some(s) && anchor_coord(
                dimension.end,
                *self,
                dimension.axis,
            ) matches Some(e) && l.ticks == abs_int(e - s)),
            r is None ==> anchor_coord(dimension.start, *self, dimension.axis) is None || anchor_coord(
                dimension.end,
                *self,
                dimension.axis,
            ) is None,
    {
        let start = match dimension.start.coord_wide(self, dimension.axis) {
            Some(s) => s,
            None => {
                return None;
            },
        };
        let end = match dimension.end.coord_wide(self, dimension.axis) {
            Some(e) => e,
            None => {
                return None;
            },
        };
        let d = end - start;
        Some(Length { ticks: (if d < 0 { -d } else { d }) as i64 })
    }

    /// `(expected, actual)` offsets of a driving dimension, in exact arithmetic.
    #[verifier::rlimit(30)]
    fn offsets_wide(&self, dimension: &DimensionConstraint) -> (r: Option<(i128, i128)>)
        ensures
            r matches Some((a, b)) ==> dimension_offsets(*self, *dimension) == Some((a as int, b as int)),
            r is None ==> dimension_offsets(*self, *dimension) is None,
    {
        if dimension.kind != DimensionKind::Driving {
            return None;
        }
        let value = match dimension.value {
            Some(v) => v,
            None => {
                return None;
            },
        };
        let start = match dimension.start.coord_wide(self, dimension.axis) {
            Some(s) => s,
            None => {
                return None;
            },
        };
        let end = match dimension.end.coord_wide(self, dimension.axis) {
            Some(e) => e,
            None => {
                return None;
            },
        };
        let expected: i128 = match dimension.direction {
            DimensionDirection::Forward => value.ticks as i128,
            DimensionDirection::Backward => -(value.ticks as i128),
        };
        Some((expected, end - start))
    }

    /// A driving dimension's `(expected, actual)` offsets from start to end anchor.
    pub fn driving_dimension_offsets(&self, dimension: &DimensionConstraint) -> (r: Option<(Length, Length)>)
        requires
            dimension_offsets(*self, *dimension) matches Some((a, b)) ==> fits(a) && fits(b),
        ensures
            r matches Some((a, b)) ==> dimension_offsets(*self, *dimension) == Some((a.ticks as int, b.ticks as int)),
            r is None ==> dimension_offsets(*self, *dimension) is None,
    {
        match self.offsets_wide(dimension) {
            Some((a, b)) => Some((Length { ticks: a as i64 }, Length { ticks: b as i64 })),
            None => None,
        }
    }

    /// A reference dimension always holds; a driving one holds when its anchors
    /// resolve and the measured offset equals the expected one.
    pub fn is_driving_dimension_satisfied(&self, dimension: &DimensionConstraint) -> (r: bool)
        ensures
            r == (dimension.kind != DimensionKind::Driving || (dimension_offsets(*self, *dimension) matches Some((a, b))
                && a == b)),
    {
        if dimension.kind != DimensionKind::Driving {
            return true;
        }
        match self.offsets_wide(dimension) {
            Some((a, b)) => a == b,
            None => false,
        }
    }
}


// ---------------------------------------------------------------------------
// Driving dimensions as linear constraints
// ---------------------------------------------------------------------------
//
// Every anchor coordinate, doubled, is a linear expression in the wall's
// length and height and each opening's center, width, bottom and height.

/// `c` at the variable `(owner, attribute)`, 0 elsewhere.
pub open spec fn at(k: VarKey, owner: Seq<char>, attribute: Seq<char>, c: int) -> int {
    if k == (owner, attribute) {
        c
    } else {
        0
    }
}

pub open spec fn wall_h_coeff(id: Seq<char>, h: DimensionHorizontalReference, k: VarKey) -> int {
    match h {
        DimensionHorizontalReference::Left => 0,
        DimensionHorizontalReference::Center => at(k, id, "length"@, 1),
        DimensionHorizontalReference::Right => at(k, id, "length"@, 2),
    }
}

pub open spec fn wall_v_coeff(id: Seq<char>, v: DimensionVerticalReference, k: VarKey) -> int {
    match v {
        DimensionVerticalReference::Bottom => 0,
        DimensionVerticalReference::Center => at(k, id, "height"@, 1),
        DimensionVerticalReference::Top => at(k, id, "height"@, 2),
    }
}

pub open spec fn opening_h_coeff(o: Seq<char>, h: DimensionHorizontalReference, k: VarKey) -> int {
    at(k, o, "center-x"@, 2) + match h {
        DimensionHorizontalReference::Left => at(k, o, "width"@, -1),
        DimensionHorizontalReference::Center => 0,
        DimensionHorizontalReference::Right => at(k, o, "width"@, 1),
    }
}

pub open spec fn opening_v_coeff(o: Seq<char>, v: DimensionVerticalReference, k: VarKey) -> int {
    at(k, o, "bottom"@, 2) + match v {
        DimensionVerticalReference::Bottom => 0,
        DimensionVerticalReference::Center => at(k, o, "height"@, 1),
        DimensionVerticalReference::Top => at(k, o, "height"@, 2),
    }
}

/// The coefficient of `k` in twice the anchor's coordinate on `axis`.
pub open spec fn anchor_coeff(wall: Seq<char>, a: DimensionAnchor, axis: DimensionAxis, k: VarKey) -> int {
    match axis {
        DimensionAxis::Horizontal => match a {
            DimensionAnchor::WallStart => 0,
            DimensionAnchor::WallEnd => wall_h_coeff(wall, DimensionHorizontalReference::Right, k),
            DimensionAnchor::OpeningLeft { opening } => opening_h_coeff(opening@, DimensionHorizontalReference::Left, k),
            DimensionAnchor::OpeningCenter { opening } => opening_h_coeff(opening@, DimensionHorizontalReference::Center, k),
            DimensionAnchor::OpeningRight { opening } => opening_h_coeff(opening@, DimensionHorizontalReference::Right, k),
            DimensionAnchor::WallPoint { horizontal, .. } => wall_h_coeff(wall, horizontal, k),
            DimensionAnchor::OpeningPoint { opening, horizontal, .. } => opening_h_coeff(opening@, horizontal, k),
        },
        DimensionAxis::Vertical => match a {
            DimensionAnchor::WallStart => 0,
            DimensionAnchor::WallEnd => 0,
            DimensionAnchor::OpeningLeft { opening } => opening_v_coeff(opening@, DimensionVerticalReference::Center, k),
            DimensionAnchor::OpeningCenter { opening } => opening_v_coeff(opening@, DimensionVerticalReference::Center, k),
            DimensionAnchor::OpeningRight { opening } => opening_v_coeff(opening@, DimensionVerticalReference::Center, k),
            DimensionAnchor::WallPoint { vertical, .. } => wall_v_coeff(wall, vertical, k),
            DimensionAnchor::OpeningPoint { opening, vertical, .. } => opening_v_coeff(opening@, vertical, k),
        },
    }
}

/// Some opening of the list has id `id`.
pub open spec fn opening_exists(s: Seq<Opening>, id: Seq<char>) -> bool {
    exists|i: int| 0 <= i < s.len() && s[i].id@ == id
}

/// The anchor's opening, if it names one, is on the wall.
pub open spec fn anchor_resolvable(w: Wall, a: DimensionAnchor) -> bool {
    anchor_opening(a) matches Some(o) ==> opening_exists(w.openings@, o)
}

/// A driving dimension with a value whose anchors resolve: it becomes a constraint.
pub open spec fn dim_constructible(w: Wall, d: DimensionConstraint) -> bool {
    &&& d.kind == DimensionKind::Driving
    &&& d.value is Some
    &&& anchor_resolvable(w, d.start)
    &&& anchor_resolvable(w, d.end)
}

/// The coefficient of `k` in the dimension's constraint: `2·end − 2·start`.
pub open spec fn dim_coeff(w: Wall, d: DimensionConstraint, k: VarKey) -> int {
    anchor_coeff(w.id@, d.end, d.axis, k) - anchor_coeff(w.id@, d.start, d.axis, k)
}

/// The dimension's constraint target: twice the signed value.
pub open spec fn dim_target(d: DimensionConstraint) -> int {
    match d.direction {
        DimensionDirection::Forward => 2 * d.value->0.ticks,
        DimensionDirection::Backward => -2 * d.value->0.ticks,
    }
}

/// `c` is the constraint of dimension `d` on wall `w`.
pub open spec fn constraint_matches(w: Wall, d: DimensionConstraint, c: LinearConstraint) -> bool {
    &&& forall|k: VarKey| #[trigger] c.expr().coeff(k) == dim_coeff(w, d, k)
    &&& c.target_value().ticks == dim_target(d)
}

/// The wall's dimensions are few and small enough for the exact
/// over-constraint check to stay within `i128`: a dimension's coefficients lie
/// within 4, a wall has `2 + 4·openings` dimension variables, and each other
/// driving dimension adds one constraint.
pub open spec fn dimensions_decidable(w: Wall) -> bool {
    let vars = 2 + 4 * (w.openings@.len() as int);
    &&& 2 * vars <= usize::MAX / 4
    &&& w.dimensions@.len() <= usize::MAX / 4
    &&& elimination_bound(4, 2 * vars, w.dimensions@.len() as int) <= i128::MAX
}

proof fn lemma_dim_var_keys_shape(w: Wall, i: int)
    requires
        0 <= i <= w.openings@.len(),
    ensures
        dim_var_keys(w, i).len() == 2 + 4 * i,
        dim_var_keys(w, i).contains((w.id@, "length"@)),
        dim_var_keys(w, i).contains((w.id@, "height"@)),
        forall|t: int| #![trigger w.openings@[t]] 0 <= t < i ==> {
            let o = w.openings@[t].id@;
            &&& dim_var_keys(w, i).contains((o, "center-x"@))
            &&& dim_var_keys(w, i).contains((o, "width"@))
            &&& dim_var_keys(w, i).contains((o, "bottom"@))
            &&& dim_var_keys(w, i).contains((o, "height"@))
        },
    decreases i,
{
    let s = dim_var_keys(w, i);
    if i == 0 {
        assert(s[0] == (w.id@, "length"@));
        assert(s[1] == (w.id@, "height"@));
    } else {
        lemma_dim_var_keys_shape(w, i - 1);
        let p = dim_var_keys(w, i - 1);
        let o = w.openings@[i - 1].id@;
        let q = seq![(o, "center-x"@), (o, "width"@), (o, "bottom"@), (o, "height"@)];
        assert(s == p + q);
        assert forall|x: VarKey| p.contains(x) implies s.contains(x) by {
            let j = choose|j: int| 0 <= j < p.len() && p[j] == x;
            assert(s[j] == x);
        }
        assert(s[p.len() as int] == q[0]);
        assert(s[p.len() as int + 1] == q[1]);
        assert(s[p.len() as int + 2] == q[2]);
        assert(s[p.len() as int + 3] == q[3]);
        assert forall|t: int| #![trigger w.openings@[t]] 0 <= t < i implies {
            let o = w.openings@[t].id@;
            &&& s.contains((o, "center-x"@))
            &&& s.contains((o, "width"@))
            &&& s.contains((o, "bottom"@))
            &&& s.contains((o, "height"@))
        } by {
            if t < i - 1 {
                let o2 = w.openings@[t].id@;
                assert(p.contains((o2, "center-x"@)));
                assert(p.contains((o2, "width"@)));
                assert(p.contains((o2, "bottom"@)));
                assert(p.contains((o2, "height"@)));
            }
        }
    }
}

proof fn lemma_anchor_coeff_facts(w: Wall, a: DimensionAnchor, axis: DimensionAxis, k: VarKey)
    requires
        anchor_resolvable(w, a),
    ensures
        -2 <= anchor_coeff(w.id@, a, axis, k) <= 2,
        anchor_coeff(w.id@, a, axis, k) != 0 ==> dim_var_keys(w, w.openings@.len() as int).contains(k),
{
    lemma_dim_var_keys_shape(w, w.openings@.len() as int);
    reveal_strlit("center-x");
    reveal_strlit("width");
    reveal_strlit("bottom");
    reveal_strlit("height");
    reveal_strlit("length");
    assert("center-x"@.len() != "width"@.len());
    assert("center-x"@ != "width"@);
    assert("bottom"@[0] != "height"@[0]);
    assert("bottom"@ != "height"@);
    if let Some(o) = anchor_opening(a) {
        let t = choose|t: int| 0 <= t < w.openings@.len() && w.openings@[t].id@ == o;
        assert(w.openings@[t].id@ == o);
    }
}

/// The coefficients of a constructible dimension lie within 4, on the wall's
/// dimension variables.
proof fn lemma_dim_coeff_facts(w: Wall, d: DimensionConstraint, k: VarKey)
    requires
        dim_constructible(w, d),
    ensures
        -4 <= dim_coeff(w, d, k) <= 4,
        dim_coeff(w, d, k) != 0 ==> dim_var_keys(w, w.openings@.len() as int).contains(k),
{
    lemma_anchor_coeff_facts(w, d.start, d.axis, k);
    lemma_anchor_coeff_facts(w, d.end, d.axis, k);
}

/// `cs` are the constraints of the dimensions `ds`, in order.
pub open spec fn rows_match(w: Wall, ds: Seq<DimensionConstraint>, cs: Seq<LinearConstraint>) -> bool {
    &&& cs.len() == ds.len()
    &&& forall|i: int| 0 <= i < ds.len() ==> constraint_matches(w, #[trigger] ds[i], cs[i])
}

/// The dimensions other than `candidate` that constrain the wall.
pub open spec fn other_driving(w: Wall, candidate: DimensionConstraint) -> Seq<DimensionConstraint> {
    w.dimensions@.filter(|d: DimensionConstraint| d.id@ != candidate.id@ && dim_constructible(w, d))
}

/// `±2·v` fit in an `i64`.
pub open spec fn doubles(v: Option<Length>) -> bool {
    v matches Some(l) ==> fits(2 * l.ticks) && fits(-2 * l.ticks)
}

/// Every driving value doubles without overflow.
pub open spec fn driving_values_fit(ds: Seq<DimensionConstraint>) -> bool {
    forall|i: int| 0 <= i < ds.len() ==> doubles((#[trigger] ds[i]).value)
}

proof fn lemma_anchor_coeff_bounds(wall: Seq<char>, a: DimensionAnchor, axis: DimensionAxis, k: VarKey)
    ensures
        -3 <= anchor_coeff(wall, a, axis, k) <= 4,
{
}

proof fn lemma_coeff_combo_transfer(cs1: Seq<LinearConstraint>, cs2: Seq<LinearConstraint>, c: Seq<int>, k: VarKey, m: int)
    requires
        cs1.len() == cs2.len(),
        m <= cs1.len(),
        forall|i: int| 0 <= i < cs1.len() ==> #[trigger] cs1[i].expr().coeff(k) == cs2[i].expr().coeff(k),
    ensures
        coeff_combo(cs1, c, k, m) == coeff_combo(cs2, c, k, m),
    decreases m,
{
    if m > 0 {
        lemma_coeff_combo_transfer(cs1, cs2, c, k, m - 1);
        assert(cs1[m - 1].expr().coeff(k) == cs2[m - 1].expr().coeff(k));
    }
}

/// Dependence looks only at coefficients.
proof fn lemma_depends_transfer(cs1: Seq<LinearConstraint>, e1: LinearExpression, cs2: Seq<LinearConstraint>, e2: LinearExpression)
    requires
        cs1.len() == cs2.len(),
        forall|i: int, k: VarKey| 0 <= i < cs1.len() ==> #[trigger] cs1[i].expr().coeff(k) == cs2[i].expr().coeff(k),
        forall|k: VarKey| #[trigger] e1.coeff(k) == e2.coeff(k),
        depends_on(cs1, e1),
    ensures
        depends_on(cs2, e2),
{
    let (c, d) = choose|c: Seq<int>, d: int| dependence_witness(cs1, e1, c, d);
    assert forall|k: VarKey| #[trigger] coeff_combo(cs2, c, k, cs2.len() as int) == d * e2.coeff(k) by {
        lemma_coeff_combo_transfer(cs1, cs2, c, k, cs1.len() as int);
        assert(coeff_combo(cs1, c, k, cs1.len() as int) == d * e1.coeff(k));
    }
    assert(dependence_witness(cs2, e2, c, d));
}

/// The variable `attribute` of the element `id`.
fn element_variable(id: &ElementId, attribute: &str) -> (r: ConstraintVariable)
    ensures
        r@ == (id@, attribute@),
{
    ConstraintVariable::new(id.as_str(), attribute)
}

fn add_wall_h_terms(e: &mut LinearExpression, id: &ElementId, h: DimensionHorizontalReference)
    requires
        forall|k: VarKey| -4 <= #[trigger] old(e).coeff(k) <= 4,
    ensures
        forall|k: VarKey| #[trigger] final(e).coeff(k) == old(e).coeff(k) + wall_h_coeff(id@, h, k),
{
    match h {
        DimensionHorizontalReference::Left => {},
        DimensionHorizontalReference::Center => {
            e.add_term(element_variable(id, "length"), 1);
        },
        DimensionHorizontalReference::Right => {
            e.add_term(element_variable(id, "length"), 2);
        },
    }
}

fn add_wall_v_terms(e: &mut LinearExpression, id: &ElementId, v: DimensionVerticalReference)
    requires
        forall|k: VarKey| -4 <= #[trigger] old(e).coeff(k) <= 4,
    ensures
        forall|k: VarKey| #[trigger] final(e).coeff(k) == old(e).coeff(k) + wall_v_coeff(id@, v, k),
{
    match v {
        DimensionVerticalReference::Bottom => {},
        DimensionVerticalReference::Center => {
            e.add_term(element_variable(id, "height"), 1);
        },
        DimensionVerticalReference::Top => {
            e.add_term(element_variable(id, "height"), 2);
        },
    }
}

fn add_opening_h_terms(e: &mut LinearExpression, id: &ElementId, h: DimensionHorizontalReference)
    requires
        forall|k: VarKey| -4 <= #[trigger] old(e).coeff(k) <= 4,
    ensures
        forall|k: VarKey| #[trigger] final(e).coeff(k) == old(e).coeff(k) + opening_h_coeff(id@, h, k),
{
    let ghost e0 = *e;
    e.add_term(element_variable(id, "center-x"), 2);
    let ghost e1 = *e;
    match h {
        DimensionHorizontalReference::Left => {
            e.add_term(element_variable(id, "width"), -1);
        },
        DimensionHorizontalReference::Center => {},
        DimensionHorizontalReference::Right => {
            e.add_term(element_variable(id, "width"), 1);
        },
    }
    assert forall|k: VarKey| #[trigger] e.coeff(k) == e0.coeff(k) + opening_h_coeff(id@, h, k) by {
        assert(e1.coeff(k) == e0.coeff(k) + at(k, id@, "center-x"@, 2));
    }
}

fn add_opening_v_terms(e: &mut LinearExpression, id: &ElementId, v: DimensionVerticalReference)
    requires
        forall|k: VarKey| -4 <= #[trigger] old(e).coeff(k) <= 4,
    ensures
        forall|k: VarKey| #[trigger] final(e).coeff(k) == old(e).coeff(k) + opening_v_coeff(id@, v, k),
{
    let ghost e0 = *e;
    e.add_term(element_variable(id, "bottom"), 2);
    let ghost e1 = *e;
    match v {
        DimensionVerticalReference::Bottom => {},
        DimensionVerticalReference::Center => {
            e.add_term(element_variable(id, "height"), 1);
        },
        DimensionVerticalReference::Top => {
            e.add_term(element_variable(id, "height"), 2);
        },
    }
    assert forall|k: VarKey| #[trigger] e.coeff(k) == e0.coeff(k) + opening_v_coeff(id@, v, k) by {
        assert(e1.coeff(k) == e0.coeff(k) + at(k, id@, "bottom"@, 2));
    }
}

fn has_opening(openings: &Vec<Opening>, id: &ElementId) -> (r: bool)
    ensures
        r == opening_exists(openings@, id@),
{
    match find_opening(openings, id) {
        Some(_) => true,
        None => false,
    }
}

impl Wall {
    /// Twice the anchor's coordinate as a linear expression; `None` when its opening is missing.
    fn dimension_anchor_expression(&self, anchor: &DimensionAnchor, axis: DimensionAxis) -> (r: Option<LinearExpression>)
        ensures
            r is Some <==> anchor_resolvable(*self, *anchor),
            r matches Some(e) ==> forall|k: VarKey| #[trigger] e.coeff(k) == anchor_coeff(self.id@, *anchor, axis, k),
    {
        let mut e = LinearExpression::new();
        let ghost e0 = e;
        match axis {
            DimensionAxis::Horizontal => match anchor {
                DimensionAnchor::WallStart => {},
                DimensionAnchor::WallEnd => {
                    add_wall_h_terms(&mut e, &self.id, DimensionHorizontalReference::Right);
                },
                DimensionAnchor::OpeningLeft { opening } => {
                    if !has_opening(&self.openings, opening) {
                        return None;
                    }
                    add_opening_h_terms(&mut e, opening, DimensionHorizontalReference::Left);
                },
                DimensionAnchor::OpeningCenter { opening } => {
                    if !has_opening(&self.openings, opening) {
                        return None;
                    }
                    add_opening_h_terms(&mut e, opening, DimensionHorizontalReference::Center);
                },
                DimensionAnchor::OpeningRight { opening } => {
                    if !has_opening(&self.openings, opening) {
                        return None;
                    }
                    add_opening_h_terms(&mut e, opening, DimensionHorizontalReference::Right);
                },
                DimensionAnchor::WallPoint { horizontal, .. } => {
                    add_wall_h_terms(&mut e, &self.id, *horizontal);
                },
                DimensionAnchor::OpeningPoint { opening, horizontal, .. } => {
                    if !has_opening(&self.openings, opening) {
                        return None;
                    }
                    add_opening_h_terms(&mut e, opening, *horizontal);
                },
            },
            DimensionAxis::Vertical => match anchor {
                DimensionAnchor::WallStart | DimensionAnchor::WallEnd => {},
                DimensionAnchor::OpeningLeft { opening }
                | DimensionAnchor::OpeningCenter { opening }
                | DimensionAnchor::OpeningRight { opening } => {
                    if !has_opening(&self.openings, opening) {
                        return None;
                    }
                    add_opening_v_terms(&mut e, opening, DimensionVerticalReference::Center);
                },
                DimensionAnchor::WallPoint { vertical, .. } => {
                    add_wall_v_terms(&mut e, &self.id, *vertical);
                },
                DimensionAnchor::OpeningPoint { opening, vertical, .. } => {
                    if !has_opening(&self.openings, opening) {
                        return None;
                    }
                    add_opening_v_terms(&mut e, opening, *vertical);
                },
            },
        }
        Some(e)
    }

    /// The constraint `2·end − 2·start = ±2·value` of a driving dimension.
    fn driving_dimension_constraint(&self, d: &DimensionConstraint) -> (r: Option<LinearConstraint>)
        requires
            doubles(d.value),
        ensures
            r is Some <==> dim_constructible(*self, *d),
            r matches Some(c) ==> constraint_matches(*self, *d, c),
    {
        if d.kind != DimensionKind::Driving {
            return None;
        }
        let value = match d.value {
            Some(v) => v,
            None => {
                return None;
            },
        };
        let start = match self.dimension_anchor_expression(&d.start, d.axis) {
            Some(e) => e,
            None => {
                return None;
            },
        };
        let mut expression = match self.dimension_anchor_expression(&d.end, d.axis) {
            Some(e) => e,
            None => {
                return None;
            },
        };
        proof {
            assert forall|k: VarKey| -3 <= #[trigger] start.coeff(k) <= 4 && -3 <= expression.coeff(k) <= 4 by {
                lemma_anchor_coeff_bounds(self.id@, d.start, d.axis, k);
                lemma_anchor_coeff_bounds(self.id@, d.end, d.axis, k);
            }
        }
        let ghost end_expr = expression;
        expression.add_expression(&start, -1);
        assert(fits(-2 * value.ticks) && fits(2 * value.ticks));
        let target = match d.direction {
            DimensionDirection::Forward => Length { ticks: value.ticks * 2 },
            DimensionDirection::Backward => Length { ticks: -(value.ticks * 2) },
        };
        let c = LinearConstraint::new(d.id.as_str(), expression, target);
        proof {
            assert forall|k: VarKey| #[trigger] c.expr().coeff(k) == dim_coeff(*self, *d, k) by {
                assert(expression.coeff(k) == end_expr.coeff(k) + start.coeff(k) * -1);
            }
        }
        Some(c)
    }

    /// The variables a wall's dimensions may move.
    fn dimension_variables(&self) -> (r: Vec<ConstraintVariable>)
        ensures
            key_views(r@) == dim_var_keys(*self, self.openings@.len() as int),
    {
        let mut vars: Vec<ConstraintVariable> = Vec::new();
        vars.push(element_variable(&self.id, "length"));
        vars.push(element_variable(&self.id, "height"));
        assert(key_views(vars@) =~= dim_var_keys(*self, 0));
        let mut i: usize = 0;
        while i < self.openings.len()
            invariant
                i <= self.openings.len(),
                key_views(vars@) == dim_var_keys(*self, i as int),
            decreases self.openings.len() - i,
        {
            let id = &self.openings[i].id;
            vars.push(element_variable(id, "center-x"));
            vars.push(element_variable(id, "width"));
            vars.push(element_variable(id, "bottom"));
            vars.push(element_variable(id, "height"));
            assert(key_views(vars@) =~= dim_var_keys(*self, i as int + 1));
            i = i + 1;
        }
        vars
    }

    /// The current values of the dimension variables.
    fn dimension_current_values(&self) -> (r: VariableValues)
        ensures
            r.value_map() == dim_values(*self, self.openings@.len() as int),
    {
        let mut values = VariableValues::new();
        values.insert(element_variable(&self.id, "length"), self.length);
        values.insert(element_variable(&self.id, "height"), self.height);
        let mut i: usize = 0;
        while i < self.openings.len()
            invariant
                i <= self.openings.len(),
                values.value_map() == dim_values(*self, i as int),
            decreases self.openings.len() - i,
        {
            let o = &self.openings[i];
            values.insert(element_variable(&o.id, "center-x"), o.center);
            values.insert(element_variable(&o.id, "width"), o.width);
            values.insert(element_variable(&o.id, "bottom"), o.sill_height);
            values.insert(element_variable(&o.id, "height"), o.height);
            i = i + 1;
        }
        values
    }

    /// Whether adding or changing `candidate` would over-constrain the wall: its
    /// constraint is a combination of the constraints of the wall's other driving
    /// dimensions. Reference dimensions, and driving ones that cannot become a
    /// constraint, never over-constrain.
    pub fn would_overconstrain_driving_dimension(&self, candidate: &DimensionConstraint) -> (r: bool)
        requires
            driving_values_fit(self.dimensions@),
            doubles(candidate.value),
        ensures
            !dim_constructible(*self, *candidate) ==> !r,
            forall|cs: Seq<LinearConstraint>, e: LinearExpression|
                #![trigger rows_match(*self, other_driving(*self, *candidate), cs), depends_on(cs, e)]
                rows_match(*self, other_driving(*self, *candidate), cs) && (forall|k: VarKey| #[trigger] e.coeff(k)
                    == dim_coeff(*self, *candidate, k)) && dim_constructible(*self, *candidate)
                    ==> (depends_on(cs, e) ==> r) && (!r ==> !depends_on(cs, e)) && (dimensions_decidable(*self) ==> (r
                    <==> depends_on(cs, e))),
            dim_constructible(*self, *candidate) && dimensions_decidable(*self) && (forall|cs: Seq<LinearConstraint>, e: LinearExpression|
                #![trigger rows_match(*self, other_driving(*self, *candidate), cs), depends_on(cs, e)]
                rows_match(*self, other_driving(*self, *candidate), cs) && (forall|k: VarKey| #[trigger] e.coeff(k)
                    == dim_coeff(*self, *candidate, k)) ==> !depends_on(cs, e)) ==> !r,
            (exists|k: VarKey|
                #[trigger] dim_coeff(*self, *candidate, k) != 0 && forall|j: int|
                    0 <= j < other_driving(*self, *candidate).len() ==> dim_coeff(
                        *self,
                        #[trigger] other_driving(*self, *candidate)[j],
                        k,
                    ) == 0) ==> !r,
    {
        let cand = match self.driving_dimension_constraint(candidate) {
            Some(c) => c,
            None => {
                return false;
            },
        };
        let ghost ds = self.dimensions@;
        let ghost pred = |d: DimensionConstraint| d.id@ != candidate.id@ && dim_constructible(*self, d);
        let mut constraints: Vec<LinearConstraint> = Vec::new();
        let ghost mut f: Seq<DimensionConstraint> = Seq::empty();
        let mut i: usize = 0;
        while i < self.dimensions.len()
            invariant
                i <= self.dimensions.len(),
                ds == self.dimensions@,
                driving_values_fit(ds),
                pred == (|d: DimensionConstraint| d.id@ != candidate.id@ && dim_constructible(*self, d)),
                f == ds.subrange(0, i as int).filter(pred),
                rows_match(*self, f, constraints@),
            decreases self.dimensions.len() - i,
        {
            let d = &self.dimensions[i];
            proof {
                assert(ds.subrange(0, i + 1) =~= ds.subrange(0, i as int).push(*d));
                ds.subrange(0, i as int).lemma_filter_push(*d, pred);
                assert(doubles(ds[i as int].value));
            }
            if d.id != candidate.id {
                match self.driving_dimension_constraint(d) {
                    Some(c) => {
                        let ghost before = constraints@;
                        constraints.push(c);
                        proof {
                            assert(pred(*d));
                            f = f.push(*d);
                            assert forall|t: int| 0 <= t < f.len() implies constraint_matches(*self, #[trigger] f[t], constraints@[t]) by {
                                if t < f.len() - 1 {
                                    assert(constraints@[t] == before[t]);
                                }
                            }
                        }
                    },
                    None => {
                        assert(!pred(*d));
                    },
                }
            } else {
                assert(!pred(*d));
            }
            i = i + 1;
        }
        proof {
            assert(ds.subrange(0, ds.len() as int) =~= ds);
        }
        let ghost built = constraints@;
        let vars = self.dimension_variables();
        let ghost vk = key_views(vars@);
        let system = ConstraintSystem::from_constraints(vars, constraints);
        let ce = cand.expression();
        proof {
            use_type_invariant(ce);
            if dimensions_decidable(*self) && dim_constructible(*self, *candidate) {
                let dv = dim_var_keys(*self, self.openings@.len() as int);
                let od = other_driving(*self, *candidate);
                assert(od == ds.filter(pred));
                lemma_dim_var_keys_shape(*self, self.openings@.len() as int);
                let kv = system.var_keys();
                assert forall|i: int| 0 <= i < kv.len() implies dv.contains(#[trigger] kv[i]) by {
                    let k = kv[i];
                    assert(kv.contains(k));
                    if !vk.contains(k) {
                        let t = choose|t: int| 0 <= t < built.len() && #[trigger] built[t].expr().coeff(k) != 0;
                        assert(constraint_matches(*self, od[t], built[t]));
                        ds.lemma_filter_pred(pred, t);
                        lemma_dim_coeff_facts(*self, od[t], k);
                    }
                }
                lemma_distinct_within(kv, dv);
                assert forall|k: VarKey| #[trigger] ce.coeff(k) != 0 implies dv.contains(k) by {
                    lemma_dim_coeff_facts(*self, *candidate, k);
                }
                lemma_term_count_within(*ce, dv);
                assert(od.len() <= ds.len()) by {
                    ds.lemma_filter_len(pred);
                }
                assert(coeffs_within(built, cand.expr(), 4)) by {
                    assert forall|i: int, k: VarKey| 0 <= i < built.len() implies -4 <= #[trigger] built[i].expr().coeff(k) <= 4 by {
                        assert(constraint_matches(*self, od[i], built[i]));
                        ds.lemma_filter_pred(pred, i);
                        lemma_dim_coeff_facts(*self, od[i], k);
                    }
                    assert forall|k: VarKey| -4 <= #[trigger] cand.expr().coeff(k) <= 4 by {
                        lemma_dim_coeff_facts(*self, *candidate, k);
                    }
                }
                let n = kv.len() + cand.expr().term_seq().len();
                let vars = 2 + 4 * (self.openings@.len() as int);
                lemma_elimination_bound_grows(4, n as int, built.len() as int, 2 * vars, ds.len() as int);
                assert(system.decision_fits(cand.expr()));
            }
        }
        let r = system.would_overconstrain(&cand);
        proof {
            assert forall|cs: Seq<LinearConstraint>, e: LinearExpression|
                #![trigger rows_match(*self, other_driving(*self, *candidate), cs), depends_on(cs, e)]
                rows_match(*self, other_driving(*self, *candidate), cs) && (forall|k: VarKey| #[trigger] e.coeff(k)
                    == dim_coeff(*self, *candidate, k)) && dim_constructible(*self, *candidate)
                    implies (depends_on(cs, e) ==> r) && (!r ==> !depends_on(cs, e)) && (dimensions_decidable(*self) ==> (r
                    <==> depends_on(cs, e))) by {
                let od = other_driving(*self, *candidate);
                assert(od == ds.filter(pred));
                assert forall|t: int, k: VarKey| 0 <= t < cs.len() implies #[trigger] cs[t].expr().coeff(k) == built[t].expr().coeff(k) by {
                    assert(constraint_matches(*self, od[t], cs[t]));
                    assert(constraint_matches(*self, od[t], built[t]));
                }
                assert forall|t: int, k: VarKey| 0 <= t < cs.len() implies #[trigger] built[t].expr().coeff(k) == cs[t].expr().coeff(k) by {
                    assert(constraint_matches(*self, od[t], cs[t]));
                    assert(constraint_matches(*self, od[t], built[t]));
                }
                if depends_on(cs, e) {
                    lemma_depends_transfer(cs, e, built, cand.expr());
                }
                if depends_on(built, cand.expr()) {
                    lemma_depends_transfer(built, cand.expr(), cs, e);
                }
            }
            if dim_constructible(*self, *candidate) && dimensions_decidable(*self) {
                let od = other_driving(*self, *candidate);
                assert(od == ds.filter(pred));
                assert(rows_match(*self, od, built));
                assert(forall|k: VarKey| #[trigger] cand.expr().coeff(k) == dim_coeff(*self, *candidate, k));
                if !depends_on(built, cand.expr()) {
                    assert(!r);
                }
            }
            if exists|k: VarKey|
                #[trigger] dim_coeff(*self, *candidate, k) != 0 && forall|j: int|
                    0 <= j < other_driving(*self, *candidate).len() ==> dim_coeff(
                        *self,
                        #[trigger] other_driving(*self, *candidate)[j],
                        k,
                    ) == 0 {
                let k = choose|k: VarKey|
                    #[trigger] dim_coeff(*self, *candidate, k) != 0 && forall|j: int|
                        0 <= j < other_driving(*self, *candidate).len() ==> dim_coeff(
                            *self,
                            #[trigger] other_driving(*self, *candidate)[j],
                            k,
                        ) == 0;
                let od = other_driving(*self, *candidate);
                assert(od == ds.filter(pred));
                assert forall|i: int| 0 <= i < built.len() implies #[trigger] built[i].expr().coeff(k) == 0 by {
                    assert(constraint_matches(*self, od[i], built[i]));
                    assert(dim_coeff(*self, od[i], k) == 0);
                }
                assert(unconstrained(built, k));
                assert(cand.expr().coeff(k) != 0);
            }
        }
        r
    }

    /// Moves the end so the wall keeps its direction at the new length; `false`
    /// (and no change) when the new end does not fit.
    fn set_length_keep_direction(&mut self, length: Length) -> (r: bool)
        ensures
            r == (i64::MIN <= kept_end(*old(self), length.ticks as int).0 <= i64::MAX && i64::MIN <= kept_end(
                *old(self),
                length.ticks as int,
            ).1 <= i64::MAX),
            r ==> final(self).length == length && final(self).end.x.ticks == kept_end(*old(self), length.ticks as int).0
                && final(self).end.y.ticks == kept_end(*old(self), length.ticks as int).1,
            !r ==> *final(self) == *old(self),
            final(self).start == old(self).start,
            final(self).id == old(self).id,
            final(self).name == old(self).name,
            final(self).level == old(self).level,
            final(self).height == old(self).height,
            final(self).system == old(self).system,
            final(self).openings == old(self).openings,
            final(self).bracing == old(self).bracing,
            final(self).dimensions == old(self).dimensions,
            final(self).tags == old(self).tags,
    {
        let sx = self.start.x.ticks as i128;
        let sy = self.start.y.ticks as i128;
        let l = length.ticks as i128;
        if self.start.y.ticks == self.end.y.ticks {
            let x = if self.end.x.ticks >= self.start.x.ticks { sx + l } else { sx - l };
            if x < i64::MIN as i128 || x > i64::MAX as i128 {
                return false;
            }
            self.length = length;
            self.end = Point2 { x: Length { ticks: x as i64 }, y: self.end.y };
        } else if self.start.x.ticks == self.end.x.ticks {
            let y = if self.end.y.ticks >= self.start.y.ticks { sy + l } else { sy - l };
            if y < i64::MIN as i128 || y > i64::MAX as i128 {
                return false;
            }
            self.length = length;
            self.end = Point2 { x: self.end.x, y: Length { ticks: y as i64 } };
        } else {
            let x = sx + l;
            if x > i64::MAX as i128 || x < i64::MIN as i128 {
                return false;
            }
            self.length = length;
            self.end = Point2 { x: Length { ticks: x as i64 }, y: self.start.y };
        }
        true
    }

    /// Applies solved values to the wall's length, height and openings, when the
    /// result keeps every opening inside the wall; reports whether anything changed.
    fn apply_dimension_solution(&mut self, values: &VariableValues) -> (r: bool)
        ensures
            r == (solution_accepted(*old(self), values.value_map()) && solution_changes(*old(self), values.value_map())),
            !r ==> *final(self) == *old(self),
            r ==> {
                let l = solved(values.value_map(), (old(self).id@, "length"@), old(self).length);
                &&& final(self).length == l
                &&& final(self).height == solved(values.value_map(), (old(self).id@, "height"@), old(self).height)
                &&& final(self).end.x.ticks == kept_end(*old(self), l.ticks as int).0
                &&& final(self).end.y.ticks == kept_end(*old(self), l.ticks as int).1
                &&& forall|i: int|
                    0 <= i < old(self).openings@.len() ==> same_opening_geometry(
                        #[trigger] final(self).openings@[i],
                        solved_opening(old(self).openings@[i], values.value_map()),
                    )
            },
            r ==> wall_geometry_sound(*final(self)),
            r ==> geometry_changed(*old(self), *final(self)),
            !r ==> *final(self) == *old(self),
            same_identity(*old(self), *final(self)),
    {
        let ghost vals = values.value_map();
        let next_length = match values.get(&element_variable(&self.id, "length")) {
            Some(v) => v,
            None => self.length,
        };
        assert(next_length == solved(vals, (self.id@, "length"@), self.length));
        if next_length.ticks <= 0 {
            return false;
        }
        let next_height = match values.get(&element_variable(&self.id, "height")) {
            Some(v) => v,
            None => self.height,
        };
        assert(next_height == solved(vals, (self.id@, "height"@), self.height));
        if next_height.ticks <= 0 {
            return false;
        }
        let mut next_openings: Vec<Opening> = Vec::new();
        let mut changed = next_length != self.length || next_height != self.height;
        let mut i: usize = 0;
        while i < self.openings.len()
            invariant
                i <= self.openings.len(),
                next_openings@.len() == i,
                next_length.ticks > 0,
                next_height.ticks > 0,
                forall|t: int| #![trigger next_openings@[t]] 0 <= t < i ==> next_openings@[t].id == self.openings@[t].id
                    && next_openings@[t].name@ == self.openings@[t].name@ && next_openings@[t].kind == self.openings@[t].kind,
                forall|t: int| 0 <= t < i ==> opening_in_wall(#[trigger] next_openings@[t], next_length.ticks as int, next_height.ticks as int),
                vals == values.value_map(),
                next_length == solved(vals, (self.id@, "length"@), self.length),
                next_height == solved(vals, (self.id@, "height"@), self.height),
                forall|t: int| 0 <= t < i ==> same_opening_geometry(#[trigger] next_openings@[t], solved_opening(self.openings@[t], vals)),
                changed == (next_length != self.length || next_height != self.height || exists|t: int| 0 <= t < i
                    && !same_opening_geometry(#[trigger] next_openings@[t], self.openings@[t])),
            decreases self.openings.len() - i,
        {
            let o = &self.openings[i];
            let center = match values.get(&element_variable(&o.id, "center-x")) {
                Some(v) => v,
                None => o.center,
            };
            let width = match values.get(&element_variable(&o.id, "width")) {
                Some(v) => v,
                None => o.width,
            };
            let sill_height = match values.get(&element_variable(&o.id, "bottom")) {
                Some(v) => v,
                None => o.sill_height,
            };
            let height = match values.get(&element_variable(&o.id, "height")) {
                Some(v) => v,
                None => o.height,
            };
            let next = Opening { id: o.id.clone(), name: o.name.clone(), kind: o.kind, center, width, height, sill_height };
            assert(same_opening_geometry(next, solved_opening(self.openings@[i as int], vals)));
            if width.ticks <= 0 || height.ticks <= 0 || left_wide(&next) < 0 || right_wide(&next) > next_length.ticks as i128
                || sill_height.ticks < 0 || top_wide(&next) > next_height.ticks as i128 {
                assert(!opening_in_wall(solved_opening(self.openings@[i as int], vals), next_length.ticks as int, next_height.ticks as int));
                return false;
            }
            if !(center == o.center && width == o.width && height == o.height && sill_height == o.sill_height) {
                changed = true;
            }
            let ghost before = next_openings@;
            next_openings.push(next);
            proof {
                assert(next_openings@[i as int] == next);
                assert(next.id == self.openings@[i as int].id);
                assert(next.name@ == self.openings@[i as int].name@);
                assert forall|t: int| 0 <= t < i implies next_openings@[t] == before[t] by {}
                if !same_opening_geometry(next, self.openings@[i as int]) {
                    assert(!same_opening_geometry(next_openings@[i as int], self.openings@[i as int]));
                }
            }
            i = i + 1;
        }
        proof {
            assert forall|t: int| 0 <= t < self.openings@.len() implies opening_in_wall(
                solved_opening(#[trigger] self.openings@[t], vals),
                next_length.ticks as int,
                next_height.ticks as int,
            ) by {
                assert(same_opening_geometry(next_openings@[t], solved_opening(self.openings@[t], vals)));
                assert(opening_in_wall(next_openings@[t], next_length.ticks as int, next_height.ticks as int));
            }
            assert(changed == solution_changes(*self, vals)) by {
                if exists|t: int| 0 <= t < self.openings@.len() && !same_opening_geometry(#[trigger] next_openings@[t], self.openings@[t]) {
                    let t = choose|t: int| 0 <= t < self.openings@.len() && !same_opening_geometry(#[trigger] next_openings@[t], self.openings@[t]);
                    assert(same_opening_geometry(next_openings@[t], solved_opening(self.openings@[t], vals)));
                    assert(!same_opening_geometry(solved_opening(self.openings@[t], vals), self.openings@[t]));
                }
                if exists|t: int| 0 <= t < self.openings@.len() && !same_opening_geometry(solved_opening(#[trigger] self.openings@[t], vals), self.openings@[t]) {
                    let t = choose|t: int| 0 <= t < self.openings@.len() && !same_opening_geometry(solved_opening(#[trigger] self.openings@[t], vals), self.openings@[t]);
                    assert(same_opening_geometry(next_openings@[t], solved_opening(self.openings@[t], vals)));
                    assert(!same_opening_geometry(next_openings@[t], self.openings@[t]));
                }
            }
        }
        if !changed {
            return false;
        }
        if !self.set_length_keep_direction(next_length) {
            return false;
        }
        self.height = next_height;
        self.openings = next_openings;
        changed
    }
}

/// The value the solution gives key `k`, else `d`.
pub open spec fn solved(vals: Map<VarKey, Length>, k: VarKey, d: Length) -> Length {
    if vals.dom().contains(k) {
        vals[k]
    } else {
        d
    }
}

/// Opening `o` with the solution's center, width, bottom and height.
pub open spec fn solved_opening(o: Opening, vals: Map<VarKey, Length>) -> Opening {
    Opening {
        center: solved(vals, (o.id@, "center-x"@), o.center),
        width: solved(vals, (o.id@, "width"@), o.width),
        sill_height: solved(vals, (o.id@, "bottom"@), o.sill_height),
        height: solved(vals, (o.id@, "height"@), o.height),
        ..o
    }
}

/// The solution keeps the wall sound: a positive length and height, every
/// opening inside, and the moved end in range.
pub open spec fn solution_accepted(w: Wall, vals: Map<VarKey, Length>) -> bool {
    let l = solved(vals, (w.id@, "length"@), w.length);
    let h = solved(vals, (w.id@, "height"@), w.height);
    &&& l.ticks > 0
    &&& h.ticks > 0
    &&& forall|i: int|
        0 <= i < w.openings@.len() ==> opening_in_wall(
            solved_opening(#[trigger] w.openings@[i], vals),
            l.ticks as int,
            h.ticks as int,
        )
    &&& i64::MIN <= kept_end(w, l.ticks as int).0 <= i64::MAX
    &&& i64::MIN <= kept_end(w, l.ticks as int).1 <= i64::MAX
}

/// The solution moves the wall's length, height or some opening.
pub open spec fn solution_changes(w: Wall, vals: Map<VarKey, Length>) -> bool {
    ||| solved(vals, (w.id@, "length"@), w.length) != w.length
    ||| solved(vals, (w.id@, "height"@), w.height) != w.height
    ||| exists|i: int|
        0 <= i < w.openings@.len() && !same_opening_geometry(solved_opening(#[trigger] w.openings@[i], vals), w.openings@[i])
}

/// The dimension variables of `w`: its length and height, then each of its
/// first `i` openings' center, width, bottom and height.
pub open spec fn dim_var_keys(w: Wall, i: int) -> Seq<VarKey>
    decreases i,
{
    if i <= 0 {
        seq![(w.id@, "length"@), (w.id@, "height"@)]
    } else {
        let o = w.openings@[i - 1];
        dim_var_keys(w, i - 1) + seq![(o.id@, "center-x"@), (o.id@, "width"@), (o.id@, "bottom"@), (o.id@, "height"@)]
    }
}

/// The current values of those variables, later entries replacing earlier ones.
pub open spec fn dim_values(w: Wall, i: int) -> Map<VarKey, Length>
    decreases i,
{
    if i <= 0 {
        Map::<VarKey, Length>::empty().insert((w.id@, "length"@), w.length).insert((w.id@, "height"@), w.height)
    } else {
        let o = w.openings@[i - 1];
        dim_values(w, i - 1).insert((o.id@, "center-x"@), o.center).insert((o.id@, "width"@), o.width).insert(
            (o.id@, "bottom"@),
            o.sill_height,
        ).insert((o.id@, "height"@), o.height)
    }
}

/// Where the end of `w` goes at length `l`, keeping the wall's direction: along
/// its axis for an axis-aligned wall, else along +x from the start.
pub open spec fn kept_end(w: Wall, l: int) -> (int, int) {
    if w.start.y.ticks == w.end.y.ticks {
        (
            if w.end.x.ticks >= w.start.x.ticks {
                w.start.x.ticks + l
            } else {
                w.start.x.ticks - l
            },
            w.end.y.ticks as int,
        )
    } else if w.start.x.ticks == w.end.x.ticks {
        (
            w.end.x.ticks as int,
            if w.end.y.ticks >= w.start.y.ticks {
                w.start.y.ticks + l
            } else {
                w.start.y.ticks - l
            },
        )
    } else {
        (w.start.x.ticks + l, w.start.y.ticks as int)
    }
}

/// An opening sits inside a wall of the given length and height.
pub open spec fn opening_in_wall(o: Opening, length: int, height: int) -> bool {
    &&& o.width.ticks > 0
    &&& o.height.ticks > 0
    &&& opening_left(o) >= 0
    &&& opening_right(o) <= length
    &&& o.sill_height.ticks >= 0
    &&& opening_top(o) <= height
}

/// Two openings have the same position and size.
pub open spec fn same_opening_geometry(a: Opening, b: Opening) -> bool {
    a.center == b.center && a.width == b.width && a.height == b.height && a.sill_height == b.sill_height
}

/// Positive length and height, every opening inside.
pub open spec fn wall_geometry_sound(w: Wall) -> bool {
    &&& w.length.ticks > 0
    &&& w.height.ticks > 0
    &&& forall|i: int| 0 <= i < w.openings@.len() ==> opening_in_wall(#[trigger] w.openings@[i], w.length.ticks as int, w.height.ticks as int)
}

/// What applying a wall's driving dimensions leaves: the same wall when none
/// of its dimensions drives; otherwise the same identity, with sound geometry
/// wherever the geometry changed.
pub open spec fn driving_outcome(before: Wall, after: Wall) -> bool {
    &&& (forall|i: int| 0 <= i < before.dimensions@.len() ==> (#[trigger] before.dimensions@[i]).kind != DimensionKind::Driving)
        ==> after == before
    &&& !geometry_changed(before, after) ==> after == before
    &&& geometry_changed(before, after) ==> wall_geometry_sound(after)
    &&& same_identity(before, after)
}

/// The length, height or some opening's position or size differs.
pub open spec fn geometry_changed(a: Wall, b: Wall) -> bool {
    ||| a.length != b.length
    ||| a.height != b.height
    ||| exists|i: int| 0 <= i < a.openings@.len() && !same_opening_geometry(#[trigger] a.openings@[i], b.openings@[i])
}

/// Everything but the geometry is kept: ids, names, level, start, system,
/// bracing, dimensions, tags, and each opening's id, name and kind in order.
pub open spec fn same_identity(a: Wall, b: Wall) -> bool {
    &&& a.id == b.id
    &&& a.name == b.name
    &&& a.level == b.level
    &&& a.start == b.start
    &&& a.system == b.system
    &&& a.bracing == b.bracing
    &&& a.dimensions == b.dimensions
    &&& a.tags == b.tags
    &&& a.openings@.len() == b.openings@.len()
    &&& forall|i: int| 0 <= i < a.openings@.len() ==> (#[trigger] a.openings@[i]).id == b.openings@[i].id
        && a.openings@[i].name@ == b.openings@[i].name@ && a.openings@[i].kind == b.openings@[i].kind
}

impl Wall {
    /// Solves the given driving dimensions and applies the result; `false` when
    /// there are none, when they cannot be solved, or when the solution would
    /// push an opening out of the wall.
    fn apply_driving_dimension_list(&mut self, list: &Vec<DimensionConstraint>) -> (r: bool)
        requires
            driving_values_fit(list@),
        ensures
            list@.len() == 0 ==> !r && *final(self) == *old(self),
            r ==> wall_geometry_sound(*final(self)),
            r ==> geometry_changed(*old(self), *final(self)),
            !r ==> *final(self) == *old(self),
            same_identity(*old(self), *final(self)),
    {
        if list.len() == 0 {
            return false;
        }
        let mut constraints: Vec<LinearConstraint> = Vec::new();
        let mut i: usize = 0;
        while i < list.len()
            invariant
                i <= list.len(),
                driving_values_fit(list@),
            decreases list.len() - i,
        {
            proof {
                assert(doubles(list@[i as int].value));
            }
            match self.driving_dimension_constraint(&list[i]) {
                Some(c) => constraints.push(c),
                None => {},
            }
            i = i + 1;
        }
        let system = ConstraintSystem::from_constraints(self.dimension_variables(), constraints);
        let solution = match system.solve_with_defaults(&self.dimension_current_values()) {
            Some(s) => s,
            None => {
                return false;
            },
        };
        self.apply_dimension_solution(&solution)
    }

    /// Solves all driving dimensions and applies the result to the wall's length,
    /// height and openings.
    pub fn apply_driving_dimensions(&mut self) -> (r: bool)
        requires
            driving_values_fit(old(self).dimensions@),
        ensures
            (forall|i: int| 0 <= i < old(self).dimensions@.len() ==> (#[trigger] old(self).dimensions@[i]).kind
                != DimensionKind::Driving) ==> !r && *final(self) == *old(self),
            r ==> wall_geometry_sound(*final(self)),
            r ==> geometry_changed(*old(self), *final(self)),
            !r ==> *final(self) == *old(self),
            same_identity(*old(self), *final(self)),
            driving_outcome(*old(self), *final(self)),
    {
        let mut list: Vec<DimensionConstraint> = Vec::new();
        let mut i: usize = 0;
        while i < self.dimensions.len()
            invariant
                i <= self.dimensions.len(),
                driving_values_fit(self.dimensions@),
                driving_values_fit(list@),
                (forall|t: int| 0 <= t < i ==> (#[trigger] self.dimensions@[t]).kind != DimensionKind::Driving) ==> list@.len() == 0,
            decreases self.dimensions.len() - i,
        {
            if self.dimensions[i].kind == DimensionKind::Driving {
                let d = self.dimensions[i].clone();
                proof {
                    assert(doubles(self.dimensions@[i as int].value));
                }
                list.push(d);
            }
            i = i + 1;
        }
        self.apply_driving_dimension_list(&list)
    }

    /// Solves the driving dimensions with `dimension` in place of the one with
    /// its id (or added to them), and applies the result. The wall's own list of
    /// dimensions is not changed.
    pub fn apply_driving_dimension(&mut self, dimension: &DimensionConstraint) -> (r: bool)
        requires
            driving_values_fit(old(self).dimensions@),
            doubles(dimension.value),
        ensures
            dimension.kind != DimensionKind::Driving ==> !r && *final(self) == *old(self),
            r ==> wall_geometry_sound(*final(self)),
            r ==> geometry_changed(*old(self), *final(self)),
            !r ==> *final(self) == *old(self),
            same_identity(*old(self), *final(self)),
    {
        if dimension.kind != DimensionKind::Driving {
            return false;
        }
        let mut list: Vec<DimensionConstraint> = Vec::new();
        let mut present = false;
        let mut i: usize = 0;
        while i < self.dimensions.len()
            invariant
                i <= self.dimensions.len(),
                driving_values_fit(self.dimensions@),
                doubles(dimension.value),
                driving_values_fit(list@),
            decreases self.dimensions.len() - i,
        {
            let candidate = &self.dimensions[i];
            if candidate.id == dimension.id {
                present = true;
            }
            if candidate.kind == DimensionKind::Driving {
                let d = if candidate.id == dimension.id { dimension.clone() } else { candidate.clone() };
                proof {
                    assert(doubles(self.dimensions@[i as int].value));
                }
                list.push(d);
            }
            i = i + 1;
        }
        if !present {
            list.push(dimension.clone());
        }
        self.apply_driving_dimension_list(&list)
    }
}




// ---------------------------------------------------------------------------
// Wall validation and editing
// ---------------------------------------------------------------------------

/// The ids of the wall's openings, in order.
pub open spec fn opening_ids(w: Wall) -> Seq<Seq<char>> {
    w.openings@.map_values(|o: Opening| o.id@)
}

/// Each opening has a valid, unique id, a positive size, and lies within the
/// wall's length and below its top.
pub open spec fn openings_valid(w: Wall) -> bool {
    &&& forall|i: int| 0 <= i < w.openings@.len() ==> {
        let o = #[trigger] w.openings@[i];
        &&& valid_id(o.id@)
        &&& o.width.ticks > 0
        &&& o.height.ticks > 0
        &&& opening_left(o) >= 0
        &&& opening_right(o) <= w.length.ticks
        &&& opening_top(o) <= w.height.ticks
    }
    &&& forall|i: int, j: int| 0 <= i < j < w.openings@.len() ==> w.openings@[i].id@ != w.openings@[j].id@
}

/// Opening `i` comes before opening `j` when sorted by left edge (ties keep their order).
pub open spec fn opening_before(w: Wall, i: int, j: int) -> bool {
    ||| opening_left(w.openings@[i]) < opening_left(w.openings@[j])
    ||| (opening_left(w.openings@[i]) == opening_left(w.openings@[j]) && i < j)
}

/// Sorted by left edge, each opening ends no later than the next begins.
pub open spec fn openings_disjoint(w: Wall) -> bool {
    forall|i: int, j: int|
        0 <= i < w.openings@.len() && 0 <= j < w.openings@.len() && i != j && #[trigger] opening_before(w, i, j)
            ==> opening_right(w.openings@[i]) <= opening_left(w.openings@[j])
}

/// Each dimension is valid, ids are unique, and driving dimensions hold.
pub open spec fn dimensions_valid(w: Wall) -> bool {
    &&& forall|i: int| 0 <= i < w.dimensions@.len() ==> {
        let d = #[trigger] w.dimensions@[i];
        &&& dimension_valid(d, opening_ids(w), w.length.ticks as int, w.height.ticks as int)
        &&& (dimension_offsets(w, d) matches Some((e, a)) ==> e == a)
    }
    &&& forall|i: int, j: int| 0 <= i < j < w.dimensions@.len() ==> w.dimensions@[i].id@ != w.dimensions@[j].id@
}

/// No driving dimension's constraint is a combination of the others'.
pub open spec fn no_redundant_dimension(w: Wall) -> bool {
    forall|i: int, cs: Seq<LinearConstraint>, e: LinearExpression|
        #![trigger w.dimensions@[i], rows_match(w, other_driving(w, w.dimensions@[i]), cs), depends_on(cs, e)]
        0 <= i < w.dimensions@.len() && dim_constructible(w, w.dimensions@[i]) && rows_match(
            w,
            other_driving(w, w.dimensions@[i]),
            cs,
        ) && (forall|k: VarKey| #[trigger] e.coeff(k) == dim_coeff(w, w.dimensions@[i], k)) ==> !depends_on(cs, e)
}

/// Everything `Wall::validate` checks except redundancy of dimensions.
pub open spec fn wall_basically_valid(w: Wall) -> bool {
    &&& valid_id(w.id@)
    &&& valid_id(w.level@)
    &&& valid_id(w.system@)
    &&& w.length.ticks > 0
    &&& w.height.ticks > 0
    &&& placement_length_spec(w.start, w.end) == Some(w.length.ticks as int)
    &&& openings_valid(w)
    &&& dimensions_valid(w)
    &&& openings_disjoint(w)
}

/// The wall's own fields pass their checks: valid ids, positive length and
/// height, and a placement that runs along an axis for exactly its length.
pub open spec fn wall_frame_ok(w: Wall) -> bool {
    &&& valid_id(w.id@)
    &&& valid_id(w.level@)
    &&& valid_id(w.system@)
    &&& w.length.ticks > 0
    &&& w.height.ticks > 0
    &&& placement_length_spec(w.start, w.end) == Some(w.length.ticks as int)
}

/// An opening passes its own checks on wall `w`.
pub open spec fn opening_fine(w: Wall, o: Opening) -> bool {
    &&& valid_id(o.id@)
    &&& o.width.ticks > 0
    &&& o.height.ticks > 0
    &&& opening_left(o) >= 0
    &&& opening_right(o) <= w.length.ticks
    &&& opening_top(o) <= w.height.ticks
}

/// Opening `i` is the first to fail, and it fails by reaching past the wall's
/// ends: the wall and the openings before it pass, and its id is valid and new
/// and its size positive.
pub open spec fn opening_first_out_of_bounds(w: Wall, i: int) -> bool {
    &&& wall_frame_ok(w)
    &&& 0 <= i < w.openings@.len()
    &&& forall|t: int| 0 <= t < i ==> opening_fine(w, #[trigger] w.openings@[t])
    &&& forall|a: int, b: int| 0 <= a < b <= i ==> w.openings@[a].id@ != w.openings@[b].id@
    &&& valid_id(w.openings@[i].id@)
    &&& w.openings@[i].width.ticks > 0
    &&& w.openings@[i].height.ticks > 0
    &&& (opening_left(w.openings@[i]) < 0 || opening_right(w.openings@[i]) > w.length.ticks)
}

/// A valid wall.
pub open spec fn wall_valid(w: Wall) -> bool {
    wall_basically_valid(w) && no_redundant_dimension(w)
}

/// The nearest `i64` to an exact value.
fn clamp_wide(x: i128) -> (r: i64)
    ensures
        fits(x as int) ==> r == x,
{
    if x > i64::MAX as i128 {
        i64::MAX
    } else if x < i64::MIN as i128 {
        i64::MIN
    } else {
        x as i64
    }
}

impl Wall {
    /// Checks ids, a positive length and height matching the placement, the
    /// openings (unique ids, positive size, inside the wall, not overlapping)
    /// and the dimensions (valid, unique ids, satisfied, not redundant).
    pub fn validate(&self) -> (r: Result<(), ModelError>)
        requires
            driving_values_fit(self.dimensions@),
        ensures
            r is Ok ==> wall_valid(*self),
            !wall_basically_valid(*self) ==> r is Err,
            wall_basically_valid(*self) && (forall|i: int| 0 <= i < self.dimensions@.len() ==> !dim_constructible(
                *self,
                #[trigger] self.dimensions@[i],
            )) ==> r is Ok,
            wall_valid(*self) && dimensions_decidable(*self) ==> r is Ok,
            forall|i: int| #[trigger] opening_first_out_of_bounds(*self, i) ==> (r matches Err(
                ModelError::OpeningOutOfBounds { wall, opening },
            ) && wall@ == self.id@ && opening@ == self.openings@[i].id@),
    {
        validate_element_id(&self.id)?;
        validate_element_id(&self.level)?;
        validate_element_id(&self.system)?;
        if self.length.ticks <= 0 {
            return Err(ModelError::InvalidWallLength { wall: self.id.clone() });
        }
        if self.height.ticks <= 0 {
            return Err(ModelError::InvalidWallHeight { wall: self.id.clone() });
        }
        let wide = if self.start.y.ticks == self.end.y.ticks && self.start.x.ticks != self.end.x.ticks {
            Some(abs_diff_wide(self.end.x.ticks, self.start.x.ticks))
        } else if self.start.x.ticks == self.end.x.ticks && self.start.y.ticks != self.end.y.ticks {
            Some(abs_diff_wide(self.end.y.ticks, self.start.y.ticks))
        } else {
            None
        };
        match wide {
            None => {
                return Err(ModelError::InvalidWallPlacement { wall: self.id.clone() });
            },
            Some(p) => {
                if p != self.length.ticks as i128 {
                    return Err(ModelError::WallLengthPlacementMismatch { wall: self.id.clone() });
                }
            },
        }
        let n = self.openings.len();
        let mut ids: Vec<ElementId> = Vec::new();
        let mut i: usize = 0;
        while i < n
            invariant
                n == self.openings@.len(),
                i <= n,
                id_views(ids@) == opening_ids(*self).subrange(0, i as int),
                forall|t: int| 0 <= t < i ==> {
                    let o = #[trigger] self.openings@[t];
                    &&& valid_id(o.id@)
                    &&& o.width.ticks > 0
                    &&& o.height.ticks > 0
                    &&& opening_left(o) >= 0
                    &&& opening_right(o) <= self.length.ticks
                    &&& opening_top(o) <= self.height.ticks
                },
                forall|a: int, b: int| 0 <= a < b < i ==> self.openings@[a].id@ != self.openings@[b].id@,
                wall_frame_ok(*self),
            decreases n - i,
        {
            let o = &self.openings[i];
            validate_element_id(&o.id)?;
            let ghost before = ids@;
            assert(opening_ids(*self).len() == n);
            assert(id_views(before).len() == i);
            assert(before.len() == i);
            proof {
                if id_views(before).contains(o.id@) {
                    let a = choose|a: int| 0 <= a < id_views(before).len() && id_views(before)[a] == o.id@;
                    assert(opening_ids(*self).subrange(0, i as int)[a] == self.openings@[a].id@);
                    assert(self.openings@[a].id@ == self.openings@[i as int].id@);
                }
            }
            let inserted = insert_unique_id(&mut ids, &o.id);
            if inserted.is_err() {
                return inserted;
            }
            proof {
                assert(ids@ == before.push(o.id));
                assert(id_views(ids@).len() == i + 1);
                assert forall|a: int| 0 <= a < i implies self.openings@[a].id@ != o.id@ by {
                    assert(id_views(before)[a] == self.openings@[a].id@);
                }
            }
            if o.width.ticks <= 0 || o.height.ticks <= 0 {
                return Err(ModelError::InvalidOpeningSize { opening: o.id.clone() });
            }
            if left_wide(o) < 0 || right_wide(o) > self.length.ticks as i128 {
                return Err(ModelError::OpeningOutOfBounds { wall: self.id.clone(), opening: o.id.clone() });
            }
            if top_wide(o) > self.height.ticks as i128 {
                return Err(ModelError::OpeningTooTall { wall: self.id.clone(), opening: o.id.clone() });
            }
            proof {
                assert forall|a: int| 0 <= a < i + 1 implies #[trigger] id_views(ids@)[a] == opening_ids(*self)[a] by {
                    if a < i {
                        assert(id_views(before)[a] == opening_ids(*self).subrange(0, i as int)[a]);
                    }
                }
            }
            i = i + 1;
            proof {
                assert(id_views(ids@) =~= opening_ids(*self).subrange(0, i as int));
            }
        }
        proof {
            assert(opening_ids(*self).subrange(0, n as int) =~= opening_ids(*self));
            assert forall|k: int| !#[trigger] opening_first_out_of_bounds(*self, k) by {}
        }
        let m = self.dimensions.len();
        let mut dim_ids: Vec<ElementId> = Vec::new();
        let mut j: usize = 0;
        while j < m
            invariant
                forall|k: int| !#[trigger] opening_first_out_of_bounds(*self, k),
                m == self.dimensions@.len(),
                j <= m,
                driving_values_fit(self.dimensions@),
                id_views(ids@) == opening_ids(*self),
                id_views(dim_ids@) == self.dimensions@.subrange(0, j as int).map_values(|d: DimensionConstraint| d.id@),
                forall|t: int| 0 <= t < j ==> {
                    let d = #[trigger] self.dimensions@[t];
                    &&& dimension_valid(d, opening_ids(*self), self.length.ticks as int, self.height.ticks as int)
                    &&& (dimension_offsets(*self, d) matches Some((e, a)) ==> e == a)
                },
                forall|a: int, b: int| 0 <= a < b < j ==> self.dimensions@[a].id@ != self.dimensions@[b].id@,
                forall|t: int, cs: Seq<LinearConstraint>, e: LinearExpression|
                    #![trigger self.dimensions@[t], rows_match(*self, other_driving(*self, self.dimensions@[t]), cs), depends_on(cs, e)]
                    0 <= t < j && dim_constructible(*self, self.dimensions@[t]) && rows_match(
                        *self,
                        other_driving(*self, self.dimensions@[t]),
                        cs,
                    ) && (forall|k: VarKey| #[trigger] e.coeff(k) == dim_coeff(*self, self.dimensions@[t], k))
                        ==> !depends_on(cs, e),
            decreases m - j,
        {
            let d = &self.dimensions[j];
            d.validate(&ids, self.length, self.height)?;
            let ghost views = self.dimensions@.subrange(0, j as int).map_values(|x: DimensionConstraint| x.id@);
            let ghost before = dim_ids@;
            assert(views.len() == j);
            assert(before.len() == j);
            proof {
                assert(doubles(self.dimensions@[j as int].value));
            }
            let inserted = insert_unique_id(&mut dim_ids, &d.id);
            if inserted.is_err() {
                return inserted;
            }
            proof {
                assert(dim_ids@ == before.push(d.id));
                assert forall|a: int| 0 <= a < j implies self.dimensions@[a].id@ != d.id@ by {
                    assert(views[a] == self.dimensions@[a].id@);
                    assert(id_views(before)[a] == views[a]);
                }
            }
            let over = self.would_overconstrain_driving_dimension(d);
            proof {
                if wall_valid(*self) && dimensions_decidable(*self) && dim_constructible(*self, *d) {
                    assert(self.dimensions@[j as int] == *d);
                    assert forall|cs: Seq<LinearConstraint>, e: LinearExpression|
                        #![trigger rows_match(*self, other_driving(*self, *d), cs), depends_on(cs, e)]
                        rows_match(*self, other_driving(*self, *d), cs) && (forall|k: VarKey| #[trigger] e.coeff(k)
                            == dim_coeff(*self, *d, k)) implies !depends_on(cs, e) by {
                        assert(no_redundant_dimension(*self));
                        assert(self.dimensions@[j as int] == *d);
                    }
                }
            }
            if over {
                let expected = match d.value {
                    Some(v) => v,
                    None => Length::zero(),
                };
                let actual = match (d.start.coord_wide(self, d.axis), d.end.coord_wide(self, d.axis)) {
                    (Some(a), Some(b)) => Length { ticks: clamp_wide(if b >= a { b - a } else { a - b }) },
                    _ => Length::zero(),
                };
                return Err(ModelError::OverconstrainedDimension { dimension: d.id.clone(), expected, actual });
            }
            match self.offsets_wide(d) {
                Some((expected, actual)) => {
                    if expected != actual {
                        return Err(
                            ModelError::UnsatisfiedDrivingDimension {
                                dimension: d.id.clone(),
                                expected: Length { ticks: clamp_wide(expected) },
                                actual: Length { ticks: clamp_wide(actual) },
                            },
                        );
                    }
                },
                None => {},
            }
            proof {
                assert forall|a: int| 0 <= a < j + 1 implies #[trigger] id_views(dim_ids@)[a] == self.dimensions@[a].id@ by {
                    if a < j {
                        assert(id_views(before)[a] == views[a]);
                    }
                }
            }
            j = j + 1;
            proof {
                assert(id_views(dim_ids@) =~= self.dimensions@.subrange(0, j as int).map_values(|x: DimensionConstraint| x.id@));
            }
        }
        let mut a: usize = 0;
        while a < n
            invariant
                forall|k: int| !#[trigger] opening_first_out_of_bounds(*self, k),
                n == self.openings@.len(),
                a <= n,
                forall|x: int, y: int|
                    0 <= x < a && 0 <= y < n && x != y && #[trigger] opening_before(*self, x, y)
                        ==> opening_right(self.openings@[x]) <= opening_left(self.openings@[y]),
            decreases n - a,
        {
            let mut b: usize = 0;
            while b < n
                invariant
                    forall|k: int| !#[trigger] opening_first_out_of_bounds(*self, k),
                    n == self.openings@.len(),
                    a < n,
                    b <= n,
                    forall|x: int, y: int|
                        0 <= x < a && 0 <= y < n && x != y && #[trigger] opening_before(*self, x, y)
                            ==> opening_right(self.openings@[x]) <= opening_left(self.openings@[y]),
                    forall|y: int|
                        0 <= y < b && a != y && #[trigger] opening_before(*self, a as int, y)
                            ==> opening_right(self.openings@[a as int]) <= opening_left(self.openings@[y]),
                decreases n - b,
            {
                if a != b {
                    let la = left_wide(&self.openings[a]);
                    let lb = left_wide(&self.openings[b]);
                    if (la < lb || (la == lb && a < b)) && right_wide(&self.openings[a]) > lb {
                        assert(opening_before(*self, a as int, b as int));
                        return Err(
                            ModelError::OverlappingOpenings {
                                first: self.openings[a].id.clone(),
                                second: self.openings[b].id.clone(),
                            },
                        );
                    }
                }
                b = b + 1;
            }
            a = a + 1;
        }
        Ok(())
    }

    /// Removes the opening with id `opening`, and the dimensions that reference
    /// it; `false` (and no change) when there is no such opening.
    pub fn remove_opening(&mut self, opening: &ElementId) -> (r: bool)
        ensures
            r == opening_exists(old(self).openings@, opening@),
            final(self).openings@ == old(self).openings@.filter(|o: Opening| o.id@ != opening@),
            r ==> final(self).dimensions@ == old(self).dimensions@.filter(
                |d: DimensionConstraint| !(anchor_opening(d.start) == Some(opening@) || anchor_opening(d.end) == Some(opening@)),
            ),
            !r ==> final(self).dimensions == old(self).dimensions,
            final(self).id == old(self).id,
            final(self).name == old(self).name,
            final(self).level == old(self).level,
            final(self).start == old(self).start,
            final(self).end == old(self).end,
            final(self).length == old(self).length,
            final(self).height == old(self).height,
            final(self).system == old(self).system,
            final(self).bracing == old(self).bracing,
            final(self).tags == old(self).tags,
    {
        let ghost pred = |o: Opening| o.id@ != opening@;
        let mut rest: Vec<Opening> = Vec::new();
        std::mem::swap(&mut rest, &mut self.openings);
        let ghost all = rest@;
        let n = rest.len();
        let mut kept: Vec<Opening> = Vec::new();
        let mut removed = false;
        let mut i: usize = 0;
        while rest.len() > 0
            invariant
                n == all.len(),
                rest@.len() + i == n,
                rest@ == all.subrange(i as int, n as int),
                kept@ == all.subrange(0, i as int).filter(pred),
                pred == (|o: Opening| o.id@ != opening@),
                removed == exists|t: int| 0 <= t < i && all[t].id@ == opening@,
            decreases rest@.len(),
        {
            let o = rest.remove(0);
            proof {
                assert(all.subrange(0, i + 1) =~= all.subrange(0, i as int).push(o));
                all.subrange(0, i as int).lemma_filter_push(o, pred);
                assert(o == all[i as int]);
            }
            if o.id == *opening {
                removed = true;
            } else {
                kept.push(o);
            }
            i = i + 1;
            proof {
                assert(rest@ =~= all.subrange(i as int, n as int));
            }
        }
        proof {
            assert(all.subrange(0, n as int) =~= all);
        }
        self.openings = kept;
        if !removed {
            return false;
        }
        let ghost dpred = |d: DimensionConstraint| !(anchor_opening(d.start) == Some(opening@) || anchor_opening(d.end) == Some(opening@));
        let mut drest: Vec<DimensionConstraint> = Vec::new();
        std::mem::swap(&mut drest, &mut self.dimensions);
        let ghost dall = drest@;
        let m = drest.len();
        let mut dkept: Vec<DimensionConstraint> = Vec::new();
        let mut j: usize = 0;
        while drest.len() > 0
            invariant
                m == dall.len(),
                drest@.len() + j == m,
                drest@ == dall.subrange(j as int, m as int),
                dkept@ == dall.subrange(0, j as int).filter(dpred),
                dpred == (|d: DimensionConstraint| !(anchor_opening(d.start) == Some(opening@) || anchor_opening(d.end) == Some(opening@))),
            decreases drest@.len(),
        {
            let d = drest.remove(0);
            proof {
                assert(dall.subrange(0, j + 1) =~= dall.subrange(0, j as int).push(d));
                dall.subrange(0, j as int).lemma_filter_push(d, dpred);
            }
            if !d.references_opening(opening) {
                dkept.push(d);
            }
            j = j + 1;
            proof {
                assert(drest@ =~= dall.subrange(j as int, m as int));
            }
        }
        proof {
            assert(dall.subrange(0, m as int) =~= dall);
        }
        self.dimensions = dkept;
        true
    }
}

} // verus!
