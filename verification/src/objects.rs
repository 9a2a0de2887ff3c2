//! Furnishing and MEP families, and their placed instances.

use vstd::prelude::*;

use crate::element::{id_views, insert_unique_id, valid_id, validate_element_id, ElementId};
use crate::error::ModelError;
use crate::material::{PropertyMap, Provenance};
use crate::units::{Length, Point2};

verus! {

/// The bounding size of an object family.
#[derive(Debug, Clone, Copy, PartialEq, Eq, Structural)]
pub struct ObjectSize {
    pub width: Length,
    pub depth: Length,
    pub height: Length,
}

impl ObjectSize {
    pub fn new(width: Length, depth: Length, height: Length) -> (r: ObjectSize)
        ensures
            r == (ObjectSize { width, depth, height }),
    {
        ObjectSize { width, depth, height }
    }

    /// All three extents are positive.
    fn is_positive(&self) -> (r: bool)
        ensures
            r == size_positive(*self),
    {
        self.width.ticks > 0 && self.depth.ticks > 0 && self.height.ticks > 0
    }
}

pub open spec fn size_positive(s: ObjectSize) -> bool {
    s.width.ticks > 0 && s.depth.ticks > 0 && s.height.ticks > 0
}

/// A rotation in plan by a multiple of 90°.
#[derive(Debug, Clone, Copy, PartialEq, Eq, Structural)]
pub enum QuarterTurn {
    Deg0,
    Deg90,
    Deg180,
    Deg270,
}

impl QuarterTurn {
    pub fn label(self) -> (r: &'static str)
        ensures
            r@ == match self {
                QuarterTurn::Deg0 => "0 deg"@,
                QuarterTurn::Deg90 => "90 deg"@,
                QuarterTurn::Deg180 => "180 deg"@,
                QuarterTurn::Deg270 => "270 deg"@,
            },
    {
        match self {
            QuarterTurn::Deg0 => "0 deg",
            QuarterTurn::Deg90 => "90 deg",
            QuarterTurn::Deg180 => "180 deg",
            QuarterTurn::Deg270 => "270 deg",
        }
    }

    pub fn is_zero(&self) -> (r: bool)
        ensures
            r == (*self == QuarterTurn::Deg0),
    {
        match self {
            QuarterTurn::Deg0 => true,
            _ => false,
        }
    }
}

#[derive(Debug, Clone, Copy, PartialEq, Eq, Structural)]
pub enum MepObjectKind {
    Electrical,
    Lighting,
    Plumbing,
    Mechanical,
    Other,
}

impl MepObjectKind {
    pub fn label(self) -> (r: &'static str)
        ensures
            r@ == match self {
                MepObjectKind::Electrical => "Electrical"@,
                MepObjectKind::Lighting => "Lighting"@,
                MepObjectKind::Plumbing => "Plumbing"@,
                MepObjectKind::Mechanical => "Mechanical"@,
                MepObjectKind::Other => "Other"@,
            },
    {
        match self {
            MepObjectKind::Electrical => "Electrical",
            MepObjectKind::Lighting => "Lighting",
            MepObjectKind::Plumbing => "Plumbing",
            MepObjectKind::Mechanical => "Mechanical",
            MepObjectKind::Other => "Other",
        }
    }
}

/// A furniture family.
#[derive(Debug, Clone)]
pub struct Furnishing {
    pub id: ElementId,
    pub name: String,
    pub source: Option<Provenance>,
    pub size: ObjectSize,
    pub tags: Vec<String>,
    pub properties: PropertyMap,
}

/// A family checks out: valid id, not used before, positive size.
pub open spec fn family_valid(id: Seq<char>, size: ObjectSize, used: Seq<Seq<char>>) -> bool {
    valid_id(id) && !used.contains(id) && size_positive(size)
}

impl Furnishing {
    pub fn new(id: &str, name: &str, width: Length, depth: Length, height: Length) -> (r: Furnishing)
        ensures
            r.id@ == id@,
            r.name@ == name@,
            r.source is None,
            r.size == (ObjectSize { width, depth, height }),
            r.tags@.len() == 0,
            r.properties.is_empty_spec(),
    {
        Furnishing {
            id: ElementId::from_str(id),
            name: name.to_owned(),
            source: None,
            size: ObjectSize::new(width, depth, height),
            tags: Vec::new(),
            properties: PropertyMap::new(),
        }
    }

    /// Checks the id (registering it in `ids`) and that the size is positive.
    pub(crate) fn validate(&self, ids: &mut Vec<ElementId>) -> (r: Result<(), ModelError>)
        ensures
            r is Ok <==> family_valid(self.id@, self.size, id_views(old(ids)@)),
            r is Ok ==> final(ids)@ == old(ids)@.push(self.id),
    {
        validate_element_id(&self.id)?;
        insert_unique_id(ids, &self.id)?;
        if !self.size.is_positive() {
            return Err(ModelError::InvalidObjectSize { object: self.id.clone() });
        }
        Ok(())
    }
}

/// A mechanical, electrical or plumbing family.
#[derive(Debug, Clone)]
pub struct MepObject {
    pub id: ElementId,
    pub name: String,
    pub kind: MepObjectKind,
    pub source: Option<Provenance>,
    pub size: ObjectSize,
    pub tags: Vec<String>,
    pub properties: PropertyMap,
}

impl MepObject {
    pub fn new(id: &str, name: &str, kind: MepObjectKind, width: Length, depth: Length, height: Length) -> (r: MepObject)
        ensures
            r.id@ == id@,
            r.name@ == name@,
            r.kind == kind,
            r.source is None,
            r.size == (ObjectSize { width, depth, height }),
            r.tags@.len() == 0,
            r.properties.is_empty_spec(),
    {
        MepObject {
            id: ElementId::from_str(id),
            name: name.to_owned(),
            kind,
            source: None,
            size: ObjectSize::new(width, depth, height),
            tags: Vec::new(),
            properties: PropertyMap::new(),
        }
    }

    /// Checks the id (registering it in `ids`) and that the size is positive.
    pub(crate) fn validate(&self, ids: &mut Vec<ElementId>) -> (r: Result<(), ModelError>)
        ensures
            r is Ok <==> family_valid(self.id@, self.size, id_views(old(ids)@)),
            r is Ok ==> final(ids)@ == old(ids)@.push(self.id),
    {
        validate_element_id(&self.id)?;
        insert_unique_id(ids, &self.id)?;
        if !self.size.is_positive() {
            return Err(ModelError::InvalidObjectSize { object: self.id.clone() });
        }
        Ok(())
    }
}

/// A placed furnishing.
#[derive(Debug, Clone)]
pub struct FurnishingInstance {
    pub id: ElementId,
    pub name: String,
    pub family: ElementId,
    pub level: ElementId,
    pub position: Point2,
    pub rotation: QuarterTurn,
    pub tags: Vec<String>,
}

/// An instance checks out: valid ids, and its own id not used before.
pub open spec fn instance_valid(id: Seq<char>, family: Seq<char>, level: Seq<char>, used: Seq<Seq<char>>) -> bool {
    valid_id(id) && valid_id(family) && valid_id(level) && !used.contains(id)
}

impl FurnishingInstance {
    pub fn new(id: &str, name: &str, family: &str, level: &str, position: Point2) -> (r: FurnishingInstance)
        ensures
            r.id@ == id@,
            r.name@ == name@,
            r.family@ == family@,
            r.level@ == level@,
            r.position == position,
            r.rotation == QuarterTurn::Deg0,
            r.tags@.len() == 0,
    {
        FurnishingInstance {
            id: ElementId::from_str(id),
            name: name.to_owned(),
            family: ElementId::from_str(family),
            level: ElementId::from_str(level),
            position,
            rotation: QuarterTurn::Deg0,
            tags: Vec::new(),
        }
    }

    pub(crate) fn validate(&self, ids: &mut Vec<ElementId>) -> (r: Result<(), ModelError>)
        ensures
            r is Ok <==> instance_valid(self.id@, self.family@, self.level@, id_views(old(ids)@)),
            r is Ok ==> final(ids)@ == old(ids)@.push(self.id),
    {
        validate_element_id(&self.id)?;
        validate_element_id(&self.family)?;
        validate_element_id(&self.level)?;
        insert_unique_id(ids, &self.id)
    }
}

/// A placed MEP object.
#[derive(Debug, Clone)]
pub struct MepInstance {
    pub id: ElementId,
    pub name: String,
    pub family: ElementId,
    pub level: ElementId,
    pub position: Point2,
    pub rotation: QuarterTurn,
    pub tags: Vec<String>,
}

impl MepInstance {
    pub fn new(id: &str, name: &str, family: &str, level: &str, position: Point2) -> (r: MepInstance)
        ensures
            r.id@ == id@,
            r.name@ == name@,
            r.family@ == family@,
            r.level@ == level@,
            r.position == position,
            r.rotation == QuarterTurn::Deg0,
            r.tags@.len() == 0,
    {
        MepInstance {
            id: ElementId::from_str(id),
            name: name.to_owned(),
            family: ElementId::from_str(family),
            level: ElementId::from_str(level),
            position,
            rotation: QuarterTurn::Deg0,
            tags: Vec::new(),
        }
    }

    pub(crate) fn validate(&self, ids: &mut Vec<ElementId>) -> (r: Result<(), ModelError>)
        ensures
            r is Ok <==> instance_valid(self.id@, self.family@, self.level@, id_views(old(ids)@)),
            r is Ok ==> final(ids)@ == old(ids)@.push(self.id),
    {
        validate_element_id(&self.id)?;
        validate_element_id(&self.family)?;
        validate_element_id(&self.level)?;
        insert_unique_id(ids, &self.id)
    }
}

} // verus!
