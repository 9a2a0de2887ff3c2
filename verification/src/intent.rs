//! Typed references to authored entities, and authored intent ids.

use vstd::prelude::*;

use crate::element::ElementId;

verus! {

/// One vendored library version, recorded in project metadata.
#[derive(Debug)]
pub struct LibraryVersionRef {
    pub uid: String,
    pub version_id: String,
}

impl LibraryVersionRef {
    pub fn new(uid: &str, version_id: &str) -> (r: LibraryVersionRef)
        ensures
            r.uid@ == uid@,
            r.version_id@ == version_id@,
    {
        LibraryVersionRef { uid: uid.to_owned(), version_id: version_id.to_owned() }
    }
}

/// A reference to an authored entity: the site, a library version, or an
/// element identified by its id.
#[derive(Debug)]
pub enum AuthoredEntityRef {
    Site,
    LibraryVersion(LibraryVersionRef),
    StandardsPack(ElementId),
    Material(ElementId),
    ConstructionSystem(ElementId),
    Furnishing(ElementId),
    MepObject(ElementId),
    Level(ElementId),
    Wall(ElementId),
    Opening(ElementId),
    Dimension(ElementId),
    WallJoin(ElementId),
    Room(ElementId),
    FurnishingInstance(ElementId),
    MepInstance(ElementId),
    RoofPlane(ElementId),
    RoofOpening(ElementId),
    Ceiling(ElementId),
    FloorDeck(ElementId),
    BracedWallLine(ElementId),
    BracedPanel(ElementId),
}

/// The element id a reference carries, if any.
pub open spec fn entity_id(r: AuthoredEntityRef) -> Option<ElementId> {
    match r {
        AuthoredEntityRef::Site => None,
        AuthoredEntityRef::LibraryVersion(_) => None,
        AuthoredEntityRef::StandardsPack(id) => Some(id),
        AuthoredEntityRef::Material(id) => Some(id),
        AuthoredEntityRef::ConstructionSystem(id) => Some(id),
        AuthoredEntityRef::Furnishing(id) => Some(id),
        AuthoredEntityRef::MepObject(id) => Some(id),
        AuthoredEntityRef::Level(id) => Some(id),
        AuthoredEntityRef::Wall(id) => Some(id),
        AuthoredEntityRef::Opening(id) => Some(id),
        AuthoredEntityRef::Dimension(id) => Some(id),
        AuthoredEntityRef::WallJoin(id) => Some(id),
        AuthoredEntityRef::Room(id) => Some(id),
        AuthoredEntityRef::FurnishingInstance(id) => Some(id),
        AuthoredEntityRef::MepInstance(id) => Some(id),
        AuthoredEntityRef::RoofPlane(id) => Some(id),
        AuthoredEntityRef::RoofOpening(id) => Some(id),
        AuthoredEntityRef::Ceiling(id) => Some(id),
        AuthoredEntityRef::FloorDeck(id) => Some(id),
        AuthoredEntityRef::BracedWallLine(id) => Some(id),
        AuthoredEntityRef::BracedPanel(id) => Some(id),
    }
}

/// The human label of a reference's kind.
pub open spec fn entity_kind_label(r: AuthoredEntityRef) -> Seq<char> {
    match r {
        AuthoredEntityRef::Site => "site context"@,
        AuthoredEntityRef::LibraryVersion(_) => "library version"@,
        AuthoredEntityRef::StandardsPack(_) => "standards pack"@,
        AuthoredEntityRef::Material(_) => "material"@,
        AuthoredEntityRef::ConstructionSystem(_) => "construction system"@,
        AuthoredEntityRef::Furnishing(_) => "furnishing family"@,
        AuthoredEntityRef::MepObject(_) => "MEP family"@,
        AuthoredEntityRef::Level(_) => "level"@,
        AuthoredEntityRef::Wall(_) => "wall"@,
        AuthoredEntityRef::Opening(_) => "opening"@,
        AuthoredEntityRef::Dimension(_) => "dimension"@,
        AuthoredEntityRef::WallJoin(_) => "wall join"@,
        AuthoredEntityRef::Room(_) => "room"@,
        AuthoredEntityRef::FurnishingInstance(_) => "furnishing instance"@,
        AuthoredEntityRef::MepInstance(_) => "MEP instance"@,
        AuthoredEntityRef::RoofPlane(_) => "roof plane"@,
        AuthoredEntityRef::RoofOpening(_) => "roof opening"@,
        AuthoredEntityRef::Ceiling(_) => "ceiling"@,
        AuthoredEntityRef::FloorDeck(_) => "floor deck"@,
        AuthoredEntityRef::BracedWallLine(_) => "braced wall line"@,
        AuthoredEntityRef::BracedPanel(_) => "braced panel"@,
    }
}

impl AuthoredEntityRef {
    /// The element id, for every reference but the site and a library version.
    pub fn element_id(&self) -> (r: Option<&ElementId>)
        ensures
            r matches Some(id) ==> entity_id(*self) == Some(*id),
            r is None ==> entity_id(*self) is None,
    {
        match self {
            AuthoredEntityRef::Site => None,
            AuthoredEntityRef::LibraryVersion(_) => None,
            AuthoredEntityRef::StandardsPack(id) => Some(id),
            AuthoredEntityRef::Material(id) => Some(id),
            AuthoredEntityRef::ConstructionSystem(id) => Some(id),
            AuthoredEntityRef::Furnishing(id) => Some(id),
            AuthoredEntityRef::MepObject(id) => Some(id),
            AuthoredEntityRef::Level(id) => Some(id),
            AuthoredEntityRef::Wall(id) => Some(id),
            AuthoredEntityRef::Opening(id) => Some(id),
            AuthoredEntityRef::Dimension(id) => Some(id),
            AuthoredEntityRef::WallJoin(id) => Some(id),
            AuthoredEntityRef::Room(id) => Some(id),
            AuthoredEntityRef::FurnishingInstance(id) => Some(id),
            AuthoredEntityRef::MepInstance(id) => Some(id),
            AuthoredEntityRef::RoofPlane(id) => Some(id),
            AuthoredEntityRef::RoofOpening(id) => Some(id),
            AuthoredEntityRef::Ceiling(id) => Some(id),
            AuthoredEntityRef::FloorDeck(id) => Some(id),
            AuthoredEntityRef::BracedWallLine(id) => Some(id),
            AuthoredEntityRef::BracedPanel(id) => Some(id),
        }
    }

    pub fn kind_label(&self) -> (r: &'static str)
        ensures
            r@ == entity_kind_label(*self),
    {
        match self {
            AuthoredEntityRef::Site => "site context",
            AuthoredEntityRef::LibraryVersion(_) => "library version",
            AuthoredEntityRef::StandardsPack(_) => "standards pack",
            AuthoredEntityRef::Material(_) => "material",
            AuthoredEntityRef::ConstructionSystem(_) => "construction system",
            AuthoredEntityRef::Furnishing(_) => "furnishing family",
            AuthoredEntityRef::MepObject(_) => "MEP family",
            AuthoredEntityRef::Level(_) => "level",
            AuthoredEntityRef::Wall(_) => "wall",
            AuthoredEntityRef::Opening(_) => "opening",
            AuthoredEntityRef::Dimension(_) => "dimension",
            AuthoredEntityRef::WallJoin(_) => "wall join",
            AuthoredEntityRef::Room(_) => "room",
            AuthoredEntityRef::FurnishingInstance(_) => "furnishing instance",
            AuthoredEntityRef::MepInstance(_) => "MEP instance",
            AuthoredEntityRef::RoofPlane(_) => "roof plane",
            AuthoredEntityRef::RoofOpening(_) => "roof opening",
            AuthoredEntityRef::Ceiling(_) => "ceiling",
            AuthoredEntityRef::FloorDeck(_) => "floor deck",
            AuthoredEntityRef::BracedWallLine(_) => "braced wall line",
            AuthoredEntityRef::BracedPanel(_) => "braced panel",
        }
    }
}

/// The id of a persisted authored assertion.
#[derive(Debug)]
pub struct AuthoredIntentId(pub ElementId);

impl AuthoredIntentId {
    pub fn new(value: &str) -> (r: AuthoredIntentId)
        ensures
            r.0@ == value@,
    {
        AuthoredIntentId(ElementId::from_str(value))
    }
}

} // verus!
