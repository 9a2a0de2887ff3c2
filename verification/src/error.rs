//! Every way an authored model, library or standards pack can fail validation.

use vstd::prelude::*;

use crate::element::ElementId;
use crate::material::TextureRole;
use crate::units::Length;

verus! {

/// A validation failure, naming the offending element(s).
#[derive(Debug)]
#[allow(inconsistent_fields)]
pub enum ModelError {
    InvalidElementId { id: ElementId },
    DuplicateElementId { id: ElementId },
    MissingLevel,
    WallReferencesUnknownLevel { wall: ElementId, level: ElementId },
    InvalidWallLength { wall: ElementId },
    InvalidWallHeight { wall: ElementId },
    InvalidWallPlacement { wall: ElementId },
    WallLengthPlacementMismatch { wall: ElementId },
    InvalidOpeningSize { opening: ElementId },
    OpeningOutOfBounds { wall: ElementId, opening: ElementId },
    OpeningTooTall { wall: ElementId, opening: ElementId },
    OverlappingOpenings { first: ElementId, second: ElementId },
    OverconstrainedDimension {
        dimension: ElementId,
        expected: Length,
        actual: Length,
    },
    UnsatisfiedDrivingDimension {
        dimension: ElementId,
        expected: Length,
        actual: Length,
    },
    DimensionReferencesSameAnchor { dimension: ElementId },
    DimensionReferencesUnknownOpening { opening: ElementId },
    InvalidDimensionValue { dimension: ElementId },
    DrivingDimensionMissingValue { dimension: ElementId },
    ReferenceDimensionHasValue { dimension: ElementId },
    JoinReferencesUnknownWall { join: ElementId, wall: ElementId },
    JoinReferencesSameWall { join: ElementId },
    JoinPointDoesNotConnectWalls { join: ElementId },
    RoomReferencesUnknownLevel { room: ElementId, level: ElementId },
    SystemHasNoLayers { system: ElementId },
    InvalidLayerThickness { system: ElementId },
    LayerFramingMismatch { system: ElementId },
    InvalidFramingSpacing { system: ElementId },
    LayerReferencesUnknownMaterial {
        system: ElementId,
        material: ElementId,
    },
    InvalidAssetHash { hash: String },
    InvalidAssetMediaType { hash: String },
    AssetRoleMismatch {
        expected: TextureRole,
        found: TextureRole,
    },
    InvalidAssetScale,
    SystemFramingLayerCount { system: ElementId, found: usize },
    WallReferencesUnknownSystem { wall: ElementId, system: ElementId },
    WallSystemWrongKind { wall: ElementId, system: ElementId },
    InvalidObjectSize { object: ElementId },
    FurnishingInstanceReferencesUnknownLevel {
        instance: ElementId,
        level: ElementId,
    },
    FurnishingInstanceReferencesUnknownFamily {
        instance: ElementId,
        family: ElementId,
    },
    MepInstanceReferencesUnknownLevel {
        instance: ElementId,
        level: ElementId,
    },
    MepInstanceReferencesUnknownFamily {
        instance: ElementId,
        family: ElementId,
    },
    RoofPlaneReferencesUnknownLevel {
        roof_plane: ElementId,
        level: ElementId,
    },
    RoofPlaneReferencesUnknownSystem {
        roof_plane: ElementId,
        system: ElementId,
    },
    RoofPlaneSystemWrongKind {
        roof_plane: ElementId,
        system: ElementId,
    },
    RoofPlaneOutlineTooFewPoints { roof_plane: ElementId },
    RoofPlaneOutlineSelfIntersecting { roof_plane: ElementId },
    RoofPlaneOutlineHasRedundantVertices { roof_plane: ElementId },
    RoofPlaneEaveEdgeOutOfRange { roof_plane: ElementId },
    RoofPlaneInvalidSlope { roof_plane: ElementId },
    RoofPlaneInvalidOverhang { roof_plane: ElementId },
    RoofPlaneConnectedOverhangMismatch { first: ElementId, second: ElementId },
    CeilingReferencesUnknownLevel {
        ceiling: ElementId,
        level: ElementId,
    },
    CeilingReferencesUnknownSystem {
        ceiling: ElementId,
        system: ElementId,
    },
    CeilingSystemWrongKind {
        ceiling: ElementId,
        system: ElementId,
    },
    CeilingSlopeRequiresPolygonRegion { ceiling: ElementId },
    CeilingSlopeLowEdgeOutOfRange { ceiling: ElementId },
    CeilingInvalidSlope { ceiling: ElementId },
    FloorDeckReferencesUnknownLevel {
        floor_deck: ElementId,
        level: ElementId,
    },
    FloorDeckReferencesUnknownSystem {
        floor_deck: ElementId,
        system: ElementId,
    },
    FloorDeckSystemWrongKind {
        floor_deck: ElementId,
        system: ElementId,
    },
    SurfaceRegionReferencesUnknownRoom { element: ElementId, room: ElementId },
    SurfaceRegionPolygonTooFewPoints { element: ElementId },
    SurfaceRegionPolygonSelfIntersecting { element: ElementId },
    StandardsInvalidRuleId { rule: String },
    StandardsDuplicateRuleId { rule: String },
    StandardsStackDuplicatePack { pack: ElementId },
    StandardsStackReferencesUnknownPack { pack: ElementId },
    StandardsOverlayMissingReason { target: String },
    StandardsTableRowsNotStrictlyOrdered { rule: String },
    StandardsPredicateTypeMismatch {
        rule: String,
        fact: String,
        expected: String,
        found: String,
    },
    StandardsPredicateInvalidOperator {
        rule: String,
        fact: String,
        op: String,
    },
    StandardsPredicateScopeMismatch {
        rule: String,
        fact: String,
        expected_scope: String,
        found_scope: String,
    },
    StandardsOpeningTagsUnsupported { rule: String },
    BracedWallLineReferencesUnknownLevel {
        braced_wall_line: ElementId,
        level: ElementId,
    },
    BracingPanelInvalidLength { wall: ElementId, panel: ElementId },
    BracingPanelOutOfBounds { wall: ElementId, panel: ElementId },
}

} // verus!
