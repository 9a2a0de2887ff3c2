use framer::element::{ElementId};
use framer::error::{ModelError};
use framer::material::{Material};
use framer::model::{BuildingModel};
use framer::polygon::{polygon_self_intersects};
use framer::standards::{BracedPanel, BracedWallLine, BracingMethod, FramingDefaults};
use framer::surfaces::{Ceiling, CeilingSlope, FloorDeck, RoofOpening, RoofPlane, Slope, SurfaceRegion};
use framer::system::{AssemblyFace, BoardProfile, ConstructionLayer, ConstructionSystem, FramingPattern, FramingSpec, LayerFunction, MemberFamily, Sheathing, SystemKind};
use framer::units::{Length, Point2};
use framer::wall::{DimensionAnchor, DimensionAxis, DimensionConstraint, DimensionDirection, DimensionHorizontalReference, DimensionKind, DimensionVerticalReference, Level, Opening, OpeningKind, Room, RoomUsage, Wall, WallEnd, WallJoin, WallJoinKind};
use framer::library::Library;

/// Length constructors from feet and inches, as the tests write them.
trait LengthUnits {
    const ZERO: Length;
    fn from_feet(feet: f64) -> Length;
    fn from_inches(inches: f64) -> Length;
}

impl LengthUnits for Length {
    const ZERO: Length = Length { ticks: 0 };

    fn from_feet(feet: f64) -> Length {
        Length { ticks: (feet * 192.0).round() as i64 }
    }

    fn from_inches(inches: f64) -> Length {
        Length { ticks: (inches * 16.0).round() as i64 }
    }
}

fn stand_in_system(id: &str) -> ConstructionSystem {
    ConstructionSystem {
        id: ElementId::new(id.to_owned()),
        name: id.to_owned(),
        kind: SystemKind::Wall,
        source: None,
        layers: vec![ConstructionLayer::new(LayerFunction::Framing, "mat-spf", BoardProfile::TwoBySix.nominal_depth())
            .with_framing(FramingSpec {
                member: BoardProfile::TwoBySix,
                spacing: Length::from_whole_inches(16),
                pattern: FramingPattern::Single,
                member_family: MemberFamily::Stud,
                cavity_material: None,
            })],
    }
}

/// A small stand-in for the starter catalog.
fn starter() -> Library {
    Library {
        uid: "8f6ebee0-fbdc-4f29-9d90-0e3f3f0640a8".to_owned(),
        version_id: "019e8b10-9b30-7c2b-8b4e-1db251cb8221".to_owned(),
        version: "0.1.0".to_owned(),
        coordinate: "framer-lib://framer/starter".to_owned(),
        materials: vec![Material::solid_color("mat-spf", "SPF lumber", [200, 170, 120])],
        systems: vec![stand_in_system("system-wall-exterior-1"), stand_in_system("system-wall-interior-1")],
    }
}

fn wall_with_window(center: Length, width: Length) -> Wall {
    let code = FramingDefaults::irc_2021_starter();
    let mut wall = Wall::new("wall", "Wall", Length::from_feet(12.0), &code);
    wall.openings.push(Opening::window(
        "window",
        "Window",
        center,
        width,
        Length::from_feet(3.0),
        Length::from_feet(3.0),
    ));
    wall
}

fn window_anchor(anchor: WindowAnchor) -> DimensionAnchor {
    let opening = ElementId::new(("window").to_owned());
    match anchor {
        WindowAnchor::Left => DimensionAnchor::OpeningLeft { opening },
        WindowAnchor::Center => DimensionAnchor::OpeningCenter { opening },
        WindowAnchor::Right => DimensionAnchor::OpeningRight { opening },
    }
}

fn driving_dimension(
    id: &str,
    start: DimensionAnchor,
    end: DimensionAnchor,
    direction: DimensionDirection,
    value: Length,
) -> DimensionConstraint {
    DimensionConstraint::new(
        id,
        id,
        DimensionKind::Driving,
        start,
        end,
        direction,
        Some(value),
    )
}

#[derive(Debug, Clone, Copy)]
enum WindowAnchor {
    Left,
    Center,
    Right,
}

/// A model carrying one framing-correct system of each surface kind (roof,
/// floor, ceiling), referencing the starter library's `mat-spf`.
fn surface_systems_model() -> BuildingModel {
    let mut model = BuildingModel::new(starter());
    for (id, kind, family) in [
        ("system-roof", SystemKind::Roof, MemberFamily::Rafter),
        ("system-floor", SystemKind::Floor, MemberFamily::FloorJoist),
        (
            "system-ceiling",
            SystemKind::Ceiling,
            MemberFamily::CeilingJoist,
        ),
    ] {
        model.systems.push(ConstructionSystem {
            id: ElementId::new((id).to_owned()),
            name: id.to_owned(),
            kind,
            source: None,
            layers: vec![
                ConstructionLayer::new(
                    LayerFunction::Framing,
                    "mat-spf",
                    BoardProfile::TwoBySix.nominal_depth(),
                )
                .with_framing(FramingSpec {
                    member: BoardProfile::TwoBySix,
                    spacing: Length::from_whole_inches(16),
                    pattern: FramingPattern::Single,
                    member_family: family,
                    cavity_material: None,
                }),
            ],
        });
    }
    model
}

fn rect_outline() -> Vec<Point2> {
    vec![
        Point2::new(Length::ZERO, Length::ZERO),
        Point2::new(Length::from_feet(20.0), Length::ZERO),
        Point2::new(Length::from_feet(20.0), Length::from_feet(12.0)),
        Point2::new(Length::ZERO, Length::from_feet(12.0)),
    ]
}

fn sample_roof_plane() -> RoofPlane {
    RoofPlane::new(
        "roof-1",
        "Roof",
        "level-1",
        "system-roof",
        rect_outline(),
        Slope::new(Length::from_whole_inches(4), Length::from_whole_inches(12)),
        0,
        Length::from_feet(8.0),
    )
}

fn simple_gable_model() -> BuildingModel {
    let mut model = BuildingModel::new(starter());
    let defaults = model.framing_defaults();
    let p = |x, y| Point2::new(Length::from_feet(x), Length::from_feet(y));
    let wall = |id: &str, start, end| {
        let mut wall = Wall::new(id, id, Length::from_feet(1.0), &defaults)
            .with_placement("level-1", start, end);
        wall.height = Length::from_feet(8.0);
        wall
    };
    model.walls = vec![
        wall("wall-south", p(0.0, 0.0), p(12.0, 0.0)),
        wall("wall-east", p(12.0, 0.0), p(12.0, 8.0)),
        wall("wall-north", p(12.0, 8.0), p(0.0, 8.0)),
        wall("wall-west", p(0.0, 8.0), p(0.0, 0.0)),
    ];
    let slope = Slope::new(Length::from_whole_inches(6), Length::from_whole_inches(12));
    model.roof_planes = vec![
        RoofPlane::new(
            "roof-south",
            "South",
            "level-1",
            "system-roof-1",
            vec![p(0.0, 0.0), p(12.0, 0.0), p(12.0, 4.0), p(0.0, 4.0)],
            slope,
            0,
            Length::from_feet(8.0),
        ),
        RoofPlane::new(
            "roof-north",
            "North",
            "level-1",
            "system-roof-1",
            vec![p(0.0, 4.0), p(12.0, 4.0), p(12.0, 8.0), p(0.0, 8.0)],
            slope,
            2,
            Length::from_feet(8.0),
        ),
    ];
    model
}

/// A ceiling over the standard 20×12 ft polygon with a slope (`low_edge` + run).
fn sloped_ceiling(region: SurfaceRegion, low_edge: u32, run: Length) -> Ceiling {
    let mut ceiling = Ceiling::new(
        "ceiling-1",
        "Ceiling",
        "level-1",
        "system-ceiling",
        region,
        Length::from_feet(8.0),
    );
    ceiling.slope = Some(CeilingSlope::new(
        Slope::new(Length::from_whole_inches(4), run),
        low_edge,
    ));
    ceiling
}

fn placed_wall_on_level(
    id: &str,
    level: &str,
    start: Point2,
    end: Point2,
    code: &FramingDefaults,
) -> Wall {
    Wall::new(id, id, Length::from_feet(1.0), code).with_placement(level, start, end)
}

fn placed_wall(id: &str, start: Point2, end: Point2, code: &FramingDefaults) -> Wall {
    placed_wall_on_level(id, "level-1", start, end, code)
}

fn rp(x: f64, y: f64) -> Point2 {
    Point2::new(Length::from_feet(x), Length::from_feet(y))
}


#[test]
fn surface_finish_material_picks_the_viewer_facing_layer() {
    let spf = || {
        ConstructionLayer::new(
            LayerFunction::Framing,
            "mat-spf",
            BoardProfile::TwoBySix.nominal_depth(),
        )
    };
    let finish = |function, material: &str| {
        ConstructionLayer::new(function, material, Length::from_whole_inches(1))
    };
    let system = |kind, layers| ConstructionSystem {
        id: ElementId::new(("s").to_owned()),
        name: "s".to_owned(),
        kind,
        source: None,
        layers,
    };
    let material_of = |s: &ConstructionSystem, face| {
        s.surface_finish_material(face)
            .map(|id| id.0.clone())
            .unwrap()
    };
    let finished = |s: &ConstructionSystem| material_of(s, AssemblyFace::Finished);

    // Roof: the weather face (the outermost Roofing layer).
    let roof = system(
        SystemKind::Roof,
        vec![spf(), finish(LayerFunction::Roofing, "mat-shingle")],
    );
    assert_eq!(finished(&roof), "mat-shingle");
    // Ceiling: the conditioned-side finish (the innermost CeilingFinish).
    let ceiling = system(
        SystemKind::Ceiling,
        vec![finish(LayerFunction::CeilingFinish, "mat-gwb"), spf()],
    );
    assert_eq!(finished(&ceiling), "mat-gwb");
    // Floor: the conditioned-side finish (the innermost InteriorFinish).
    let floor = system(
        SystemKind::Floor,
        vec![finish(LayerFunction::InteriorFinish, "mat-oak"), spf()],
    );
    assert_eq!(finished(&floor), "mat-oak");

    // Cathedral underside: a roof's *conditioned-side* finish (the innermost
    // CeilingFinish/InteriorFinish), not its weather face. The same system
    // resolves the shingle outward and the drywall on the underside.
    let cathedral_roof = system(
        SystemKind::Roof,
        vec![
            finish(LayerFunction::CeilingFinish, "mat-gwb"),
            spf(),
            finish(LayerFunction::Roofing, "mat-shingle"),
        ],
    );
    assert_eq!(finished(&cathedral_roof), "mat-shingle");
    assert_eq!(
        material_of(&cathedral_roof, AssemblyFace::Underside),
        "mat-gwb"
    );
    // A ceiling/floor is viewed from the conditioned side, so its underside
    // resolves the same innermost finish as its finished face.
    assert_eq!(material_of(&ceiling, AssemblyFace::Underside), "mat-gwb");
    assert_eq!(material_of(&floor, AssemblyFace::Underside), "mat-oak");
    // A roof with no interior finish layer falls back to its innermost layer.
    assert_eq!(material_of(&roof, AssemblyFace::Underside), "mat-spf");

    // Roof without a Roofing layer falls back to the outermost weather/sheathing
    // layer before resorting to the last layer.
    let roof_sheathed = system(
        SystemKind::Roof,
        vec![spf(), finish(LayerFunction::Sheathing, "mat-osb")],
    );
    assert_eq!(finished(&roof_sheathed), "mat-osb");
    let roof_wrb = system(
        SystemKind::Roof,
        vec![spf(), finish(LayerFunction::WeatherBarrier, "mat-felt")],
    );
    assert_eq!(finished(&roof_wrb), "mat-felt");
    // A floor whose only finish is structural sheathing (a bare subfloor).
    let floor_deck = system(
        SystemKind::Floor,
        vec![finish(LayerFunction::Sheathing, "mat-ply"), spf()],
    );
    assert_eq!(finished(&floor_deck), "mat-ply");

    // Fallback: a roof with only framing falls back to its outermost layer.
    let bare = system(SystemKind::Roof, vec![spf()]);
    assert_eq!(finished(&bare), "mat-spf");
    // An empty system resolves to nothing (the caller applies its fallback).
    assert!(
        system(SystemKind::Roof, vec![])
            .surface_finish_material(AssemblyFace::Finished)
            .is_none()
    );
    // Walls pick their face by exposure, not this rule (either face).
    assert!(
        system(SystemKind::Wall, vec![spf()])
            .surface_finish_material(AssemblyFace::Finished)
            .is_none()
    );
    assert!(
        system(SystemKind::Wall, vec![spf()])
            .surface_finish_material(AssemblyFace::Underside)
            .is_none()
    );
}

#[test]
fn surface_objects_validate_when_well_formed() {
    let mut model = surface_systems_model();
    model
        .roof_planes
        .push(sample_roof_plane().with_eave_overhang(Length::from_whole_inches(12)));
    model.ceilings.push(Ceiling::new(
        "ceiling-1",
        "Ceiling",
        "level-1",
        "system-ceiling",
        SurfaceRegion::Polygon(rect_outline()),
        Length::from_feet(8.0),
    ));
    model.floor_decks.push(FloorDeck::new(
        "deck-1",
        "Deck",
        "level-1",
        "system-floor",
        SurfaceRegion::Polygon(rect_outline()),
    ));

    assert!(model.validate().is_ok());
}

#[test]
fn roof_plane_rejects_wrong_system_kind() {
    let mut model = surface_systems_model();
    let mut roof = sample_roof_plane();
    roof.system = ElementId::new(("system-wall-exterior-1").to_owned());
    model.roof_planes.push(roof);

    assert!(matches!(
        model.validate(),
        Err(ModelError::RoofPlaneSystemWrongKind { .. })
    ));
}

#[test]
fn roof_plane_rejects_unknown_system() {
    let mut model = surface_systems_model();
    let mut roof = sample_roof_plane();
    roof.system = ElementId::new(("system-nope").to_owned());
    model.roof_planes.push(roof);

    assert!(matches!(
        model.validate(),
        Err(ModelError::RoofPlaneReferencesUnknownSystem { .. })
    ));
}

#[test]
fn roof_plane_rejects_unknown_level() {
    let mut model = surface_systems_model();
    let mut roof = sample_roof_plane();
    roof.level = ElementId::new(("level-nope").to_owned());
    model.roof_planes.push(roof);

    assert!(matches!(
        model.validate(),
        Err(ModelError::RoofPlaneReferencesUnknownLevel { .. })
    ));
}

#[test]
fn roof_plane_rejects_too_few_outline_points() {
    let mut model = surface_systems_model();
    let mut roof = sample_roof_plane();
    roof.outline.truncate(2);
    model.roof_planes.push(roof);

    assert!(matches!(
        model.validate(),
        Err(ModelError::RoofPlaneOutlineTooFewPoints { .. })
    ));
}

#[test]
fn roof_plane_rejects_self_intersecting_outline() {
    let mut model = surface_systems_model();
    let mut roof = sample_roof_plane();
    // A bow-tie quad: swap the last two vertices so opposite edges cross.
    roof.outline = vec![
        Point2::new(Length::ZERO, Length::ZERO),
        Point2::new(Length::from_feet(20.0), Length::ZERO),
        Point2::new(Length::ZERO, Length::from_feet(12.0)),
        Point2::new(Length::from_feet(20.0), Length::from_feet(12.0)),
    ];
    model.roof_planes.push(roof);

    assert!(matches!(
        model.validate(),
        Err(ModelError::RoofPlaneOutlineSelfIntersecting { .. })
    ));
}

#[test]
fn roof_plane_rejects_explicitly_closed_or_collinear_outline_vertices() {
    for outline in [
        vec![
            Point2::new(Length::ZERO, Length::ZERO),
            Point2::new(Length::from_feet(20.0), Length::ZERO),
            Point2::new(Length::from_feet(20.0), Length::from_feet(12.0)),
            Point2::new(Length::ZERO, Length::from_feet(12.0)),
            Point2::new(Length::ZERO, Length::ZERO),
        ],
        vec![
            Point2::new(Length::ZERO, Length::ZERO),
            Point2::new(Length::from_feet(10.0), Length::ZERO),
            Point2::new(Length::from_feet(20.0), Length::ZERO),
            Point2::new(Length::from_feet(20.0), Length::from_feet(12.0)),
            Point2::new(Length::ZERO, Length::from_feet(12.0)),
        ],
    ] {
        let mut model = surface_systems_model();
        let mut roof = sample_roof_plane();
        roof.outline = outline;
        model.roof_planes.push(roof);

        assert!(matches!(
            model.validate(),
            Err(ModelError::RoofPlaneOutlineHasRedundantVertices { .. })
        ));
    }
}

#[test]
fn roof_plane_rejects_eave_edge_out_of_range() {
    let mut model = surface_systems_model();
    let mut roof = sample_roof_plane();
    roof.eave_edge = 4; // outline has 4 points → valid indices are 0..=3
    model.roof_planes.push(roof);

    assert!(matches!(
        model.validate(),
        Err(ModelError::RoofPlaneEaveEdgeOutOfRange { .. })
    ));
}

#[test]
fn roof_plane_rejects_nonpositive_slope_run() {
    let mut model = surface_systems_model();
    let mut roof = sample_roof_plane();
    roof.slope = Slope::new(Length::from_whole_inches(4), Length::ZERO);
    model.roof_planes.push(roof);

    assert!(matches!(
        model.validate(),
        Err(ModelError::RoofPlaneInvalidSlope { .. })
    ));
}

#[test]
fn roof_plane_rejects_negative_eave_or_rake_overhang() {
    for (eave_overhang, rake_overhang) in [
        (Length::from_ticks(-1), Length::ZERO),
        (Length::ZERO, Length::from_ticks(-1)),
    ] {
        let mut model = surface_systems_model();
        let mut roof = sample_roof_plane();
        roof.eave_overhang = eave_overhang;
        roof.rake_overhang = rake_overhang;
        model.roof_planes.push(roof);

        assert!(matches!(
            model.validate(),
            Err(ModelError::RoofPlaneInvalidOverhang { .. })
        ));
    }
}

#[test]
fn sloped_ceiling_validates_with_polygon_region_and_in_range_low_edge() {
    let mut model = surface_systems_model();
    model.ceilings.push(sloped_ceiling(
        SurfaceRegion::Polygon(rect_outline()),
        0,
        Length::from_whole_inches(12),
    ));
    assert!(model.validate().is_ok());
}

#[test]
fn sloped_ceiling_rejects_room_region() {
    // A Room boundary has no stable edge order, so a sloped ceiling needs an
    // explicit polygon. The room exists (so the region reference resolves), and
    // the slope rule — not the unknown-room rule — is what rejects it.
    let mut model = surface_systems_model();
    model.rooms.push(Room::new(
        "room-1",
        "Room",
        RoomUsage::default(),
        "level-1",
        Point2::new(Length::from_feet(10.0), Length::from_feet(6.0)),
    ));
    model.ceilings.push(sloped_ceiling(
        SurfaceRegion::Room(ElementId::new(("room-1").to_owned())),
        0,
        Length::from_whole_inches(12),
    ));
    assert!(matches!(
        model.validate(),
        Err(ModelError::CeilingSlopeRequiresPolygonRegion { .. })
    ));
}

#[test]
fn sloped_ceiling_rejects_low_edge_out_of_range() {
    // rect_outline has 4 points → valid low-edge indices are 0..=3.
    let mut model = surface_systems_model();
    model.ceilings.push(sloped_ceiling(
        SurfaceRegion::Polygon(rect_outline()),
        4,
        Length::from_whole_inches(12),
    ));
    assert!(matches!(
        model.validate(),
        Err(ModelError::CeilingSlopeLowEdgeOutOfRange { .. })
    ));
}

#[test]
fn sloped_ceiling_rejects_nonpositive_run() {
    let mut model = surface_systems_model();
    model.ceilings.push(sloped_ceiling(
        SurfaceRegion::Polygon(rect_outline()),
        0,
        Length::ZERO,
    ));
    assert!(matches!(
        model.validate(),
        Err(ModelError::CeilingInvalidSlope { .. })
    ));
}

#[test]
fn flat_ceiling_keeps_validating_with_a_room_region() {
    // A flat ceiling (slope == None) is unaffected by the new rules: a Room
    // region stays valid (the ceiling tool's common case).
    let mut model = surface_systems_model();
    model.rooms.push(Room::new(
        "room-1",
        "Room",
        RoomUsage::default(),
        "level-1",
        Point2::new(Length::from_feet(10.0), Length::from_feet(6.0)),
    ));
    model.ceilings.push(Ceiling::new(
        "ceiling-1",
        "Ceiling",
        "level-1",
        "system-ceiling",
        SurfaceRegion::Room(ElementId::new(("room-1").to_owned())),
        Length::from_feet(8.0),
    ));
    assert!(model.validate().is_ok());
}

#[test]
fn roof_opening_rejects_nonpositive_size() {
    let mut model = surface_systems_model();
    let mut roof = sample_roof_plane();
    roof.openings.push(RoofOpening::new(
        "skylight-1",
        OpeningKind::Skylight,
        Point2::new(Length::from_feet(10.0), Length::from_feet(6.0)),
        Length::ZERO,
        Length::from_feet(2.0),
    ));
    model.roof_planes.push(roof);

    assert!(matches!(
        model.validate(),
        Err(ModelError::InvalidOpeningSize { .. })
    ));
}

#[test]
fn ceiling_rejects_wrong_system_kind() {
    let mut model = surface_systems_model();
    model.ceilings.push(Ceiling::new(
        "ceiling-1",
        "Ceiling",
        "level-1",
        "system-roof",
        SurfaceRegion::Polygon(rect_outline()),
        Length::from_feet(8.0),
    ));

    assert!(matches!(
        model.validate(),
        Err(ModelError::CeilingSystemWrongKind { .. })
    ));
}

#[test]
fn ceiling_with_room_region_validates_and_rejects_unknown_room() {
    let mut model = surface_systems_model();
    model.rooms.push(Room::new(
        "room-1",
        "Living",
        RoomUsage::Living,
        "level-1",
        Point2::new(Length::from_feet(6.0), Length::from_feet(6.0)),
    ));
    model.ceilings.push(Ceiling::new(
        "ceiling-1",
        "Ceiling",
        "level-1",
        "system-ceiling",
        SurfaceRegion::Room(ElementId::new(("room-1").to_owned())),
        Length::from_feet(8.0),
    ));
    assert!(model.validate().is_ok());

    model.ceilings[0].region = SurfaceRegion::Room(ElementId::new(("room-nope").to_owned()));
    assert!(matches!(
        model.validate(),
        Err(ModelError::SurfaceRegionReferencesUnknownRoom { .. })
    ));
}

#[test]
fn floor_deck_rejects_wrong_system_kind() {
    let mut model = surface_systems_model();
    model.floor_decks.push(FloorDeck::new(
        "deck-1",
        "Deck",
        "level-1",
        "system-ceiling",
        SurfaceRegion::Polygon(rect_outline()),
    ));

    assert!(matches!(
        model.validate(),
        Err(ModelError::FloorDeckSystemWrongKind { .. })
    ));
}

#[test]
fn ceiling_rejects_unknown_level() {
    let mut model = surface_systems_model();
    let mut ceiling = Ceiling::new(
        "ceiling-1",
        "Ceiling",
        "level-nope",
        "system-ceiling",
        SurfaceRegion::Polygon(rect_outline()),
        Length::from_feet(8.0),
    );
    ceiling.level = ElementId::new(("level-nope").to_owned());
    model.ceilings.push(ceiling);

    assert!(matches!(
        model.validate(),
        Err(ModelError::CeilingReferencesUnknownLevel { .. })
    ));
}

#[test]
fn ceiling_rejects_unknown_system() {
    let mut model = surface_systems_model();
    model.ceilings.push(Ceiling::new(
        "ceiling-1",
        "Ceiling",
        "level-1",
        "system-nope",
        SurfaceRegion::Polygon(rect_outline()),
        Length::from_feet(8.0),
    ));

    assert!(matches!(
        model.validate(),
        Err(ModelError::CeilingReferencesUnknownSystem { .. })
    ));
}

#[test]
fn floor_deck_rejects_unknown_level() {
    let mut model = surface_systems_model();
    let mut deck = FloorDeck::new(
        "deck-1",
        "Deck",
        "level-1",
        "system-floor",
        SurfaceRegion::Polygon(rect_outline()),
    );
    deck.level = ElementId::new(("level-nope").to_owned());
    model.floor_decks.push(deck);

    assert!(matches!(
        model.validate(),
        Err(ModelError::FloorDeckReferencesUnknownLevel { .. })
    ));
}

#[test]
fn floor_deck_rejects_unknown_system() {
    let mut model = surface_systems_model();
    model.floor_decks.push(FloorDeck::new(
        "deck-1",
        "Deck",
        "level-1",
        "system-nope",
        SurfaceRegion::Polygon(rect_outline()),
    ));

    assert!(matches!(
        model.validate(),
        Err(ModelError::FloorDeckReferencesUnknownSystem { .. })
    ));
}

#[test]
fn surface_region_polygon_rejects_self_intersection() {
    let mut model = surface_systems_model();
    let bowtie = vec![
        Point2::new(Length::ZERO, Length::ZERO),
        Point2::new(Length::from_feet(10.0), Length::ZERO),
        Point2::new(Length::ZERO, Length::from_feet(10.0)),
        Point2::new(Length::from_feet(10.0), Length::from_feet(10.0)),
    ];
    model.floor_decks.push(FloorDeck::new(
        "deck-1",
        "Deck",
        "level-1",
        "system-floor",
        SurfaceRegion::Polygon(bowtie),
    ));

    assert!(matches!(
        model.validate(),
        Err(ModelError::SurfaceRegionPolygonSelfIntersecting { .. })
    ));
}

#[test]
fn surface_objects_enforce_global_id_uniqueness() {
    // A nested roof-opening id colliding with a top-level id is rejected
    // (openings share the one global id set).
    let mut model = surface_systems_model();
    let mut roof = sample_roof_plane();
    roof.openings.push(RoofOpening::new(
        "roof-1", // collides with the roof plane's own id
        OpeningKind::Skylight,
        Point2::new(Length::from_feet(10.0), Length::from_feet(6.0)),
        Length::from_feet(2.0),
        Length::from_feet(2.0),
    ));
    model.roof_planes.push(roof);
    assert!(matches!(
        model.validate(),
        Err(ModelError::DuplicateElementId { .. })
    ));

    // Two floor decks sharing an id is rejected.
    let mut model = surface_systems_model();
    for _ in 0..2 {
        model.floor_decks.push(FloorDeck::new(
            "deck-dup",
            "Deck",
            "level-1",
            "system-floor",
            SurfaceRegion::Polygon(rect_outline()),
        ));
    }
    assert!(matches!(
        model.validate(),
        Err(ModelError::DuplicateElementId { .. })
    ));
}

#[test]
fn polygon_self_intersection_detects_bowtie_not_simple_rect() {
    assert!(!polygon_self_intersects(&rect_outline()));
    let bowtie = vec![
        Point2::new(Length::ZERO, Length::ZERO),
        Point2::new(Length::from_feet(10.0), Length::ZERO),
        Point2::new(Length::ZERO, Length::from_feet(10.0)),
        Point2::new(Length::from_feet(10.0), Length::from_feet(10.0)),
    ];
    assert!(polygon_self_intersects(&bowtie));
}

#[test]
fn polygon_self_intersection_tolerates_explicitly_closed_ring() {
    // A ring whose last vertex repeats the first (explicit closure) is a
    // simple rectangle, not a self-intersection.
    let mut closed = rect_outline();
    closed.push(closed[0]);
    assert!(!polygon_self_intersects(&closed));
}

#[test]
fn opening_validation_rejects_out_of_bounds() {
    let code = FramingDefaults::irc_2021_starter();
    let mut wall = Wall::new("wall", "Wall", Length::from_feet(8.0), &code);
    wall.openings.push(Opening::door(
        "door",
        "Door",
        Length::from_inches(8.0),
        Length::from_inches(36.0),
        Length::from_inches(80.0),
    ));

    assert!(matches!(
        wall.validate(),
        Err(ModelError::OpeningOutOfBounds { .. })
    ));
}

#[test]
fn model_validation_rejects_duplicate_ids() {
    let code = FramingDefaults::irc_2021_starter();
    let mut model = BuildingModel::new(starter());
    model.walls.push(Wall::new(
        "wall",
        "First wall",
        Length::from_feet(8.0),
        &code,
    ));
    model.walls.push(Wall::new(
        "wall",
        "Second wall",
        Length::from_feet(8.0),
        &code,
    ));

    assert!(matches!(
        model.validate(),
        Err(ModelError::DuplicateElementId { .. })
    ));
}

#[test]
fn model_validation_rejects_braced_wall_line_unknown_level() {
    let mut model = BuildingModel::new(starter());
    model.braced_wall_lines.push(BracedWallLine {
        id: ElementId::new(("bwl-front").to_owned()),
        name: "Front braced wall line".to_owned(),
        level: ElementId::new(("level-missing").to_owned()),
        start: Point2::new(Length::ZERO, Length::ZERO),
        end: Point2::new(Length::from_feet(10.0), Length::ZERO),
    });

    assert!(matches!(
        model.validate(),
        Err(ModelError::BracedWallLineReferencesUnknownLevel { braced_wall_line, level })
            if braced_wall_line == ElementId::new(("bwl-front").to_owned())
                && level == ElementId::new(("level-missing").to_owned())
    ));
}

#[test]
fn model_validation_rejects_invalid_bracing_panel_length() {
    let code = FramingDefaults::irc_2021_starter();
    let mut model = BuildingModel::new(starter());
    let mut wall = Wall::new("wall", "Wall", Length::from_feet(8.0), &code);
    wall.bracing.push(BracedPanel {
        id: ElementId::new(("panel-zero").to_owned()),
        offset: Length::ZERO,
        length: Length::ZERO,
        method: framer::standards::BracingMethod::Wsp,
    });
    model.walls.push(wall);

    assert!(matches!(
        model.validate(),
        Err(ModelError::BracingPanelInvalidLength { wall, panel })
            if wall == ElementId::new(("wall").to_owned()) && panel == ElementId::new(("panel-zero").to_owned())
    ));
}

#[test]
fn model_validation_rejects_out_of_bounds_bracing_panel() {
    let code = FramingDefaults::irc_2021_starter();
    let mut model = BuildingModel::new(starter());
    let mut wall = Wall::new("wall", "Wall", Length::from_feet(8.0), &code);
    wall.bracing.push(BracedPanel {
        id: ElementId::new(("panel-long").to_owned()),
        offset: Length::from_feet(7.0),
        length: Length::from_feet(2.0),
        method: framer::standards::BracingMethod::Wsp,
    });
    model.walls.push(wall);

    assert!(matches!(
        model.validate(),
        Err(ModelError::BracingPanelOutOfBounds { wall, panel })
            if wall == ElementId::new(("wall").to_owned()) && panel == ElementId::new(("panel-long").to_owned())
    ));
}

#[test]
fn deterministic_sort_uses_stable_ids() {
    let code = FramingDefaults::irc_2021_starter();
    let mut model = BuildingModel::new(starter());
    let mut wall_b = Wall::new("wall-b", "B", Length::from_feet(8.0), &code);
    wall_b.openings.push(Opening::window(
        "opening-b",
        "B",
        Length::from_inches(72.0),
        Length::from_inches(24.0),
        Length::from_inches(24.0),
        Length::from_inches(36.0),
    ));
    wall_b.openings.push(Opening::window(
        "opening-a",
        "A",
        Length::from_inches(36.0),
        Length::from_inches(24.0),
        Length::from_inches(24.0),
        Length::from_inches(36.0),
    ));
    model.walls.push(wall_b);
    model
        .walls
        .push(Wall::new("wall-a", "A", Length::from_feet(8.0), &code));

    model.sort_deterministically();

    assert_eq!(model.walls[0].id.0, "wall-a");
    assert_eq!(model.walls[1].openings[0].id.0, "opening-a");
    assert_eq!(model.walls[1].openings[1].id.0, "opening-b");
}

#[test]
fn wall_dimensions_validate_opening_anchors() {
    let code = FramingDefaults::irc_2021_starter();
    let mut wall = Wall::new("wall", "Wall", Length::from_feet(8.0), &code);
    wall.dimensions.push(DimensionConstraint::new(
        "dim",
        "Missing opening dimension",
        DimensionKind::Reference,
        DimensionAnchor::WallStart,
        DimensionAnchor::OpeningCenter {
            opening: ElementId::new(("missing-opening").to_owned()),
        },
        DimensionDirection::Forward,
        None,
    ));

    assert!(matches!(
        wall.validate(),
        Err(ModelError::DimensionReferencesUnknownOpening { .. })
    ));
}

#[test]
fn removing_opening_cascades_dimensions_that_reference_it() {
    let mut wall = wall_with_window(Length::from_feet(4.0), Length::from_feet(3.0));
    wall.openings.push(Opening::window(
        "other-window",
        "Other window",
        Length::from_feet(9.0),
        Length::from_feet(2.0),
        Length::from_feet(3.0),
        Length::from_feet(3.0),
    ));
    wall.dimensions.push(DimensionConstraint::new(
        "window-offset",
        "Window offset",
        DimensionKind::Reference,
        DimensionAnchor::WallStart,
        window_anchor(WindowAnchor::Left),
        DimensionDirection::Forward,
        None,
    ));
    wall.dimensions.push(DimensionConstraint::new(
        "other-offset",
        "Other offset",
        DimensionKind::Reference,
        DimensionAnchor::WallStart,
        DimensionAnchor::OpeningLeft {
            opening: ElementId::new(("other-window").to_owned()),
        },
        DimensionDirection::Forward,
        None,
    ));
    wall.dimensions.push(DimensionConstraint::new(
        "wall-length",
        "Wall length",
        DimensionKind::Reference,
        DimensionAnchor::WallStart,
        DimensionAnchor::WallEnd,
        DimensionDirection::Forward,
        None,
    ));

    assert!(wall.remove_opening(&ElementId::new(("window").to_owned())));

    assert_eq!(
        wall.openings
            .iter()
            .map(|opening| opening.id.0.as_str())
            .collect::<Vec<_>>(),
        vec!["other-window"]
    );
    assert_eq!(
        wall.dimensions
            .iter()
            .map(|dimension| dimension.id.0.as_str())
            .collect::<Vec<_>>(),
        vec!["other-offset", "wall-length"]
    );
    wall.validate().unwrap();
}

#[test]
fn room_validation_rejects_unknown_level() {
    let mut model = BuildingModel::new(starter());
    model.rooms.push(Room::new(
        "room-1",
        "Room",
        RoomUsage::Unspecified,
        "no-such-level",
        Point2::new(Length::from_feet(1.0), Length::from_feet(1.0)),
    ));

    assert!(matches!(
        model.validate(),
        Err(ModelError::RoomReferencesUnknownLevel { .. })
    ));
}

#[test]
fn tee_join_validates_when_partition_meets_through_wall_midspan() {
    let code = FramingDefaults::irc_2021_starter();
    let mut model = BuildingModel::new(starter());
    model.walls.push(placed_wall(
        "through",
        Point2::new(Length::ZERO, Length::ZERO),
        Point2::new(Length::from_feet(20.0), Length::ZERO),
        &code,
    ));
    model.walls.push(placed_wall(
        "partition",
        Point2::new(Length::from_feet(10.0), Length::ZERO),
        Point2::new(Length::from_feet(10.0), Length::from_feet(8.0)),
        &code,
    ));
    model.wall_joins.push(WallJoin::new(
        "join-tee",
        "Tee",
        WallJoinKind::Tee,
        "through",
        "partition",
        Point2::new(Length::from_feet(10.0), Length::ZERO),
    ));

    model.validate().unwrap();
}

#[test]
fn cross_join_validates_when_point_interior_to_both() {
    let code = FramingDefaults::irc_2021_starter();
    let mut model = BuildingModel::new(starter());
    model.walls.push(placed_wall(
        "horizontal",
        Point2::new(Length::ZERO, Length::from_feet(4.0)),
        Point2::new(Length::from_feet(20.0), Length::from_feet(4.0)),
        &code,
    ));
    model.walls.push(placed_wall(
        "vertical",
        Point2::new(Length::from_feet(10.0), Length::ZERO),
        Point2::new(Length::from_feet(10.0), Length::from_feet(8.0)),
        &code,
    ));
    model.wall_joins.push(WallJoin::new(
        "join-cross",
        "Cross",
        WallJoinKind::Cross,
        "horizontal",
        "vertical",
        Point2::new(Length::from_feet(10.0), Length::from_feet(4.0)),
    ));

    model.validate().unwrap();
}

#[test]
fn reconcile_creates_corner_for_shared_endpoint() {
    let code = FramingDefaults::irc_2021_starter();
    let mut model = BuildingModel::new(starter());
    model
        .walls
        .push(placed_wall("a", rp(0.0, 0.0), rp(10.0, 0.0), &code));
    model
        .walls
        .push(placed_wall("b", rp(10.0, 0.0), rp(10.0, 8.0), &code));

    model.reconcile_joins();

    assert_eq!(model.wall_joins.len(), 1);
    assert_eq!(model.wall_joins[0].kind, WallJoinKind::Corner);
    assert_eq!(model.wall_joins[0].point, rp(10.0, 0.0));
    model.validate().unwrap();
}

#[test]
fn extend_collinear_wall_moves_start_and_preserves_wall_local_content() {
    let code = FramingDefaults::irc_2021_starter();
    let mut model = BuildingModel::new(starter());
    let mut wall = placed_wall("existing", rp(10.0, 0.0), rp(0.0, 0.0), &code);
    wall.openings.push(Opening::window(
        "window",
        "Window",
        Length::from_feet(3.0),
        Length::from_feet(2.0),
        Length::from_feet(3.0),
        Length::from_feet(3.0),
    ));
    wall.bracing.push(BracedPanel {
        id: ElementId::new(("panel").to_owned()),
        offset: Length::from_feet(2.0),
        length: Length::from_feet(4.0),
        method: crate::BracingMethod::Wsp,
    });
    let opening_world_point = wall.point_at_local_x(wall.openings[0].center);
    let bracing_world_point = wall.point_at_local_x(wall.bracing[0].offset);
    model.walls.push(wall);

    let extended =
        model.extend_collinear_wall(&ElementId::new(("level-1").to_owned()), rp(10.0, 0.0), rp(20.0, 0.0));

    assert_eq!(extended, Some(ElementId::new(("existing").to_owned())));
    let wall = &model.walls[0];
    assert_eq!(wall.start, rp(20.0, 0.0));
    assert_eq!(wall.end, rp(0.0, 0.0));
    assert_eq!(wall.length, Length::from_feet(20.0));
    assert_eq!(
        wall.point_at_local_x(wall.openings[0].center),
        opening_world_point,
        "moving the local start must not move an existing opening"
    );
    assert_eq!(
        wall.point_at_local_x(wall.bracing[0].offset),
        bracing_world_point,
        "moving the local start must not move an existing braced panel"
    );
    model.validate().unwrap();
}

#[test]
fn extend_collinear_wall_moves_end_without_shifting_local_content() {
    let code = FramingDefaults::irc_2021_starter();
    let mut model = BuildingModel::new(starter());
    let mut wall = placed_wall("existing", rp(0.0, 0.0), rp(0.0, 10.0), &code);
    wall.openings.push(Opening::window(
        "window",
        "Window",
        Length::from_feet(3.0),
        Length::from_feet(2.0),
        Length::from_feet(3.0),
        Length::from_feet(3.0),
    ));
    model.walls.push(wall);

    let extended =
        model.extend_collinear_wall(&ElementId::new(("level-1").to_owned()), rp(0.0, 20.0), rp(0.0, 10.0));

    assert_eq!(extended, Some(ElementId::new(("existing").to_owned())));
    let wall = &model.walls[0];
    assert_eq!(wall.start, rp(0.0, 0.0));
    assert_eq!(wall.end, rp(0.0, 20.0));
    assert_eq!(wall.length, Length::from_feet(20.0));
    assert_eq!(wall.openings[0].center, Length::from_feet(3.0));
    model.validate().unwrap();
}

#[test]
fn extend_collinear_wall_rejects_overlap_ambiguity_and_driving_conflicts() {
    let code = FramingDefaults::irc_2021_starter();
    let mut model = BuildingModel::new(starter());
    let mut constrained = placed_wall("constrained", rp(0.0, 0.0), rp(10.0, 0.0), &code);
    constrained.dimensions.push(driving_dimension(
        "wall-length",
        DimensionAnchor::WallStart,
        DimensionAnchor::WallEnd,
        DimensionDirection::Forward,
        Length::from_feet(10.0),
    ));
    model.walls.push(constrained);

    assert_eq!(
        model.extend_collinear_wall(&ElementId::new(("level-1").to_owned()), rp(10.0, 0.0), rp(10.0, 0.0),),
        None,
        "a zero-length segment is not a continuation"
    );
    assert_eq!(
        model.extend_collinear_wall(&ElementId::new(("level-1").to_owned()), rp(10.0, 0.0), rp(20.0, 1.0),),
        None,
        "a diagonal segment is not a continuation"
    );

    assert_eq!(
        model.extend_collinear_wall(&ElementId::new(("level-1").to_owned()), rp(10.0, 0.0), rp(20.0, 0.0),),
        None,
        "a draw gesture must not silently override a driving dimension"
    );
    assert_eq!(model.walls[0].length, Length::from_feet(10.0));
    assert_eq!(
        model.extend_collinear_wall(&ElementId::new(("level-1").to_owned()), rp(2.0, 0.0), rp(10.0, 0.0),),
        None,
        "an overlapping stroke is not a continuation"
    );

    model.walls[0].dimensions.clear();
    model.walls.push(placed_wall(
        "wrong-level-continuation",
        rp(10.0, 0.0),
        rp(20.0, 0.0),
        &code,
    ));
    model
        .levels
        .push(Level::new("level-2", "Level 2", Length::from_feet(10.0)));
    model.walls.push(placed_wall_on_level(
        "other-level",
        "level-2",
        rp(10.0, 0.0),
        rp(20.0, 0.0),
        &code,
    ));
    assert_eq!(
        model.extend_collinear_wall(&ElementId::new(("level-2").to_owned()), rp(20.0, 0.0), rp(30.0, 0.0),),
        Some(ElementId::new(("other-level").to_owned())),
        "only the requested level participates in continuation"
    );
    assert_eq!(model.walls[0].length, Length::from_feet(10.0));
    assert_eq!(model.walls[1].length, Length::from_feet(10.0));
}

#[test]
fn extend_collinear_wall_rejects_multiple_candidates_and_other_wall_overlap() {
    let code = FramingDefaults::irc_2021_starter();
    let mut model = BuildingModel::new(starter());
    model
        .walls
        .push(placed_wall("left", rp(0.0, 0.0), rp(10.0, 0.0), &code));
    model
        .walls
        .push(placed_wall("right", rp(20.0, 0.0), rp(30.0, 0.0), &code));

    assert_eq!(
        model.extend_collinear_wall(&ElementId::new(("level-1").to_owned()), rp(10.0, 0.0), rp(20.0, 0.0),),
        None,
        "a bridge between two possible host walls is ambiguous"
    );

    model.walls.clear();
    model
        .walls
        .push(placed_wall("lower", rp(0.0, 0.0), rp(0.0, 10.0), &code));
    model.walls.push(placed_wall(
        "vertical-overlap",
        rp(0.0, 15.0),
        rp(0.0, 25.0),
        &code,
    ));
    assert_eq!(
        model.extend_collinear_wall(&ElementId::new(("level-1").to_owned()), rp(0.0, 10.0), rp(0.0, 20.0),),
        None,
        "a continuation must not create coincident wall runs"
    );
    assert_eq!(model.walls[0].length, Length::from_feet(10.0));
}

#[test]
fn reconcile_creates_tee_with_through_then_partition() {
    let code = FramingDefaults::irc_2021_starter();
    let mut model = BuildingModel::new(starter());
    model
        .walls
        .push(placed_wall("through", rp(0.0, 0.0), rp(20.0, 0.0), &code));
    model.walls.push(placed_wall(
        "partition",
        rp(10.0, 0.0),
        rp(10.0, 8.0),
        &code,
    ));

    model.reconcile_joins();

    assert_eq!(model.wall_joins.len(), 1);
    let join = &model.wall_joins[0];
    assert_eq!(join.kind, WallJoinKind::Tee);
    assert_eq!(join.first_wall, ElementId::new(("through").to_owned()));
    assert_eq!(join.second_wall, ElementId::new(("partition").to_owned()));
    assert_eq!(join.point, rp(10.0, 0.0));
    model.validate().unwrap();
}

#[test]
fn reconcile_detects_cross() {
    let code = FramingDefaults::irc_2021_starter();
    let mut model = BuildingModel::new(starter());
    model.walls.push(placed_wall(
        "horizontal",
        rp(0.0, 4.0),
        rp(20.0, 4.0),
        &code,
    ));
    model
        .walls
        .push(placed_wall("vertical", rp(10.0, 0.0), rp(10.0, 8.0), &code));

    model.reconcile_joins();

    assert_eq!(model.wall_joins.len(), 1);
    assert_eq!(model.wall_joins[0].kind, WallJoinKind::Cross);
    assert_eq!(model.wall_joins[0].point, rp(10.0, 4.0));
    model.validate().unwrap();
}

#[test]
fn reconcile_ignores_cross_level_wall_geometry() {
    let code = FramingDefaults::irc_2021_starter();
    let mut model = BuildingModel::new(starter());
    model
        .levels
        .push(Level::new("level-2", "Level 2", Length::from_feet(10.0)));
    model
        .walls
        .push(placed_wall("through", rp(0.0, 0.0), rp(20.0, 0.0), &code));
    model.walls.push(placed_wall_on_level(
        "corner",
        "level-2",
        rp(20.0, 0.0),
        rp(20.0, 8.0),
        &code,
    ));
    model.walls.push(placed_wall_on_level(
        "tee-partition",
        "level-2",
        rp(5.0, 0.0),
        rp(5.0, 8.0),
        &code,
    ));
    model.walls.push(placed_wall_on_level(
        "crossing",
        "level-2",
        rp(10.0, -4.0),
        rp(10.0, 4.0),
        &code,
    ));

    model.reconcile_joins();

    assert!(model.wall_joins.is_empty());
    model.validate().unwrap();
}

#[test]
fn reconcile_drops_stale_join_when_walls_separate() {
    let code = FramingDefaults::irc_2021_starter();
    let mut model = BuildingModel::new(starter());
    model
        .walls
        .push(placed_wall("a", rp(0.0, 0.0), rp(10.0, 0.0), &code));
    model
        .walls
        .push(placed_wall("b", rp(10.0, 0.0), rp(10.0, 8.0), &code));
    model.reconcile_joins();
    assert_eq!(model.wall_joins.len(), 1);

    // Pull wall b's lower endpoint away so the two walls no longer meet.
    let b = model.walls.iter_mut().find(|w| w.id.0 == "b").unwrap();
    *b = placed_wall("b", rp(15.0, 4.0), rp(15.0, 8.0), &code);
    model.reconcile_joins();

    assert!(model.wall_joins.is_empty());
    model.validate().unwrap();
}

#[test]
fn reconcile_preserves_join_id_across_point_move() {
    let code = FramingDefaults::irc_2021_starter();
    let mut model = BuildingModel::new(starter());
    model
        .walls
        .push(placed_wall("a", rp(0.0, 0.0), rp(10.0, 0.0), &code));
    model
        .walls
        .push(placed_wall("b", rp(10.0, 0.0), rp(10.0, 8.0), &code));
    model.wall_joins.push(WallJoin::corner(
        "join-keep",
        "Hand-named corner",
        "a",
        "b",
        rp(10.0, 0.0),
    ));

    // Move the shared corner of both walls to a new point.
    model.walls[0] = placed_wall("a", rp(0.0, 0.0), rp(12.0, 0.0), &code);
    model.walls[1] = placed_wall("b", rp(12.0, 0.0), rp(12.0, 8.0), &code);
    model.reconcile_joins();

    assert_eq!(model.wall_joins.len(), 1);
    assert_eq!(model.wall_joins[0].id, ElementId::new(("join-keep").to_owned()));
    assert_eq!(model.wall_joins[0].name, "Hand-named corner");
    assert_eq!(model.wall_joins[0].point, rp(12.0, 0.0));
    model.validate().unwrap();
}

#[test]
fn move_wall_endpoint_moves_free_end_and_resyncs_length() {
    let code = FramingDefaults::irc_2021_starter();
    let mut model = BuildingModel::new(starter());
    model
        .walls
        .push(placed_wall("a", rp(0.0, 0.0), rp(10.0, 0.0), &code));

    let affected = model.move_wall_endpoint(&ElementId::new(("a").to_owned()), WallEnd::End, rp(8.0, 0.0));

    assert_eq!(affected, vec![ElementId::new(("a").to_owned())]);
    assert_eq!(model.walls[0].end, rp(8.0, 0.0));
    assert_eq!(model.walls[0].length, Length::from_feet(8.0));
    model.validate().unwrap();
}

#[test]
fn move_wall_endpoint_drags_shared_node_along_collinear_run() {
    let code = FramingDefaults::irc_2021_starter();
    let mut model = BuildingModel::new(starter());
    // A collinear run a—b sharing the node at (10,0); moving it stays ortho.
    model
        .walls
        .push(placed_wall("a", rp(0.0, 0.0), rp(10.0, 0.0), &code));
    model
        .walls
        .push(placed_wall("b", rp(10.0, 0.0), rp(20.0, 0.0), &code));

    let affected = model.move_wall_endpoint(&ElementId::new(("a").to_owned()), WallEnd::End, rp(12.0, 0.0));

    assert_eq!(affected.len(), 2);
    assert_eq!(model.walls[0].end, rp(12.0, 0.0));
    assert_eq!(model.walls[1].start, rp(12.0, 0.0));
    assert_eq!(model.walls[0].length, Length::from_feet(12.0));
    assert_eq!(model.walls[1].length, Length::from_feet(8.0));
    model.validate().unwrap();
}

#[test]
fn translate_wall_moves_both_ends_and_stretches_neighbour() {
    let code = FramingDefaults::irc_2021_starter();
    let mut model = BuildingModel::new(starter());
    // L-corner at (0,0): horizontal `a` and vertical `b`.
    model
        .walls
        .push(placed_wall("a", rp(0.0, 0.0), rp(10.0, 0.0), &code));
    model
        .walls
        .push(placed_wall("b", rp(0.0, 0.0), rp(0.0, 8.0), &code));

    // Slide `a` up by 2ft (perpendicular to itself).
    let affected =
        model.translate_wall(&ElementId::new(("a").to_owned()), Length::ZERO, Length::from_feet(2.0));

    assert_eq!(affected.len(), 2);
    assert_eq!(model.walls[0].start, rp(0.0, 2.0));
    assert_eq!(model.walls[0].end, rp(10.0, 2.0));
    assert_eq!(model.walls[0].length, Length::from_feet(10.0));
    // `b` follows the shared corner up, shortening but staying vertical.
    assert_eq!(model.walls[1].start, rp(0.0, 2.0));
    assert_eq!(model.walls[1].end, rp(0.0, 8.0));
    assert_eq!(model.walls[1].length, Length::from_feet(6.0));
    model.reconcile_joins();
    model.validate().unwrap();
}

#[test]
fn move_wall_endpoint_unknown_wall_is_noop() {
    let code = FramingDefaults::irc_2021_starter();
    let mut model = BuildingModel::new(starter());
    model
        .walls
        .push(placed_wall("a", rp(0.0, 0.0), rp(10.0, 0.0), &code));

    let affected =
        model.move_wall_endpoint(&ElementId::new(("missing").to_owned()), WallEnd::End, rp(8.0, 0.0));

    assert!(affected.is_empty());
    assert_eq!(model.walls[0].end, rp(10.0, 0.0));
}

#[test]
fn tee_join_rejected_when_point_is_a_shared_endpoint() {
    let code = FramingDefaults::irc_2021_starter();
    let mut model = BuildingModel::new(starter());
    // Two walls meeting at a shared endpoint (a corner) but mislabelled Tee.
    model.walls.push(placed_wall(
        "a",
        Point2::new(Length::ZERO, Length::ZERO),
        Point2::new(Length::from_feet(10.0), Length::ZERO),
        &code,
    ));
    model.walls.push(placed_wall(
        "b",
        Point2::new(Length::from_feet(10.0), Length::ZERO),
        Point2::new(Length::from_feet(10.0), Length::from_feet(8.0)),
        &code,
    ));
    model.wall_joins.push(WallJoin::new(
        "join",
        "Bad tee",
        WallJoinKind::Tee,
        "a",
        "b",
        Point2::new(Length::from_feet(10.0), Length::ZERO),
    ));

    assert!(matches!(
        model.validate(),
        Err(ModelError::JoinPointDoesNotConnectWalls { .. })
    ));
}

#[test]
fn driving_dimension_between_opening_edges_resizes_opening() {
    let code = FramingDefaults::irc_2021_starter();
    let mut wall = Wall::new("wall", "Wall", Length::from_feet(12.0), &code);
    wall.openings.push(Opening::window(
        "window",
        "Window",
        Length::from_feet(4.0),
        Length::from_feet(3.0),
        Length::from_feet(3.0),
        Length::from_feet(3.0),
    ));
    wall.dimensions.push(DimensionConstraint::new(
        "dim",
        "Window width",
        DimensionKind::Driving,
        DimensionAnchor::OpeningLeft {
            opening: ElementId::new(("window").to_owned()),
        },
        DimensionAnchor::OpeningRight {
            opening: ElementId::new(("window").to_owned()),
        },
        DimensionDirection::Forward,
        Some(Length::from_feet(4.0)),
    ));

    assert!(wall.apply_driving_dimensions());

    let window = wall
        .openings
        .iter()
        .find(|opening| opening.id.0 == "window")
        .unwrap();
    assert_eq!(window.width, Length::from_feet(4.0));
    assert_eq!(window.center, Length::from_feet(4.0));
}

#[test]
fn vertical_driving_dimension_moves_opening_top_anchor() {
    let mut wall = wall_with_window(Length::from_feet(4.0), Length::from_feet(3.0));
    wall.dimensions.push(
        DimensionConstraint::new(
            "top-offset",
            "Top offset",
            DimensionKind::Driving,
            DimensionAnchor::WallPoint {
                horizontal: DimensionHorizontalReference::Left,
                vertical: DimensionVerticalReference::Bottom,
            },
            DimensionAnchor::OpeningPoint {
                opening: ElementId::new(("window").to_owned()),
                horizontal: DimensionHorizontalReference::Center,
                vertical: DimensionVerticalReference::Top,
            },
            DimensionDirection::Forward,
            Some(Length::from_feet(7.0)),
        )
        .with_axis(DimensionAxis::Vertical),
    );

    assert!(wall.apply_driving_dimensions());

    let window = &wall.openings[0];
    assert_eq!(window.top(), Length::from_feet(7.0));
    assert_eq!(window.height, Length::from_feet(3.0));
    assert_eq!(window.sill_height, Length::from_feet(4.0));
}

#[test]
fn vertical_driving_dimension_between_opening_edges_resizes_opening() {
    let mut wall = wall_with_window(Length::from_feet(4.0), Length::from_feet(3.0));
    wall.dimensions.push(
        DimensionConstraint::new(
            "opening-height",
            "Opening height",
            DimensionKind::Driving,
            DimensionAnchor::OpeningPoint {
                opening: ElementId::new(("window").to_owned()),
                horizontal: DimensionHorizontalReference::Center,
                vertical: DimensionVerticalReference::Bottom,
            },
            DimensionAnchor::OpeningPoint {
                opening: ElementId::new(("window").to_owned()),
                horizontal: DimensionHorizontalReference::Center,
                vertical: DimensionVerticalReference::Top,
            },
            DimensionDirection::Forward,
            Some(Length::from_feet(4.0)),
        )
        .with_axis(DimensionAxis::Vertical),
    );

    assert!(wall.apply_driving_dimensions());

    let window = &wall.openings[0];
    assert_eq!(window.height, Length::from_feet(4.0));
    assert_eq!(window.sill_height, Length::from_feet(3.0));
}

#[test]
fn driving_dimension_can_move_first_anchor_when_second_anchor_is_fixed() {
    let code = FramingDefaults::irc_2021_starter();
    let mut wall = Wall::new("wall", "Wall", Length::from_feet(12.0), &code);
    wall.openings.push(Opening::window(
        "window",
        "Window",
        Length::from_feet(4.0),
        Length::from_feet(3.0),
        Length::from_feet(3.0),
        Length::from_feet(3.0),
    ));
    wall.dimensions.push(DimensionConstraint::new(
        "dim",
        "Center from start",
        DimensionKind::Driving,
        window_anchor(WindowAnchor::Center),
        DimensionAnchor::WallStart,
        DimensionDirection::Backward,
        Some(Length::from_feet(6.0)),
    ));

    assert!(wall.apply_driving_dimensions());

    let window = wall
        .openings
        .iter()
        .find(|opening| opening.id.0 == "window")
        .unwrap();
    assert_eq!(window.center, Length::from_feet(6.0));
}

#[test]
fn wall_validation_rejects_overconstrained_driving_dimensions() {
    let mut wall = wall_with_window(Length::from_feet(5.0), Length::from_feet(4.0));
    wall.dimensions.push(DimensionConstraint::new(
        "left-offset",
        "Left offset",
        DimensionKind::Driving,
        DimensionAnchor::WallStart,
        DimensionAnchor::OpeningLeft {
            opening: ElementId::new(("window").to_owned()),
        },
        DimensionDirection::Forward,
        Some(Length::from_feet(3.0)),
    ));
    wall.dimensions.push(DimensionConstraint::new(
        "right-offset",
        "Right offset",
        DimensionKind::Driving,
        DimensionAnchor::WallStart,
        DimensionAnchor::OpeningRight {
            opening: ElementId::new(("window").to_owned()),
        },
        DimensionDirection::Forward,
        Some(Length::from_feet(7.0)),
    ));
    wall.dimensions.push(DimensionConstraint::new(
        "width",
        "Width",
        DimensionKind::Driving,
        window_anchor(WindowAnchor::Left),
        window_anchor(WindowAnchor::Right),
        DimensionDirection::Forward,
        Some(Length::from_feet(4.0)),
    ));

    wall.apply_driving_dimensions();

    assert!(matches!(
        wall.validate(),
        Err(ModelError::OverconstrainedDimension { .. })
    ));
    assert!(
        wall.dimensions
            .iter()
            .all(|dimension| wall.is_driving_dimension_satisfied(dimension))
    );
}

#[test]
fn paired_edge_offsets_solve_opening_width_and_position_together() {
    let mut wall = wall_with_window(Length::from_feet(6.0), Length::from_feet(3.0));
    wall.dimensions.push(driving_dimension(
        "left-offset",
        DimensionAnchor::WallStart,
        window_anchor(WindowAnchor::Left),
        DimensionDirection::Forward,
        Length::from_feet(5.0),
    ));
    wall.dimensions.push(driving_dimension(
        "right-offset",
        DimensionAnchor::WallStart,
        window_anchor(WindowAnchor::Right),
        DimensionDirection::Forward,
        Length::from_feet(10.0),
    ));

    assert!(wall.apply_driving_dimensions());
    wall.validate().unwrap();

    let window = &wall.openings[0];
    assert_eq!(window.left(), Length::from_feet(5.0));
    assert_eq!(window.right(), Length::from_feet(10.0));
    assert_eq!(window.width, Length::from_feet(5.0));
    assert_eq!(window.center, Length::from_feet(7.5));
}

#[test]
fn paired_edge_offsets_are_valid_but_direct_width_dimension_overconstrains() {
    let mut wall = wall_with_window(Length::from_feet(5.0), Length::from_feet(4.0));
    wall.dimensions.push(driving_dimension(
        "left-offset",
        DimensionAnchor::WallStart,
        window_anchor(WindowAnchor::Left),
        DimensionDirection::Forward,
        Length::from_feet(3.0),
    ));
    wall.dimensions.push(driving_dimension(
        "right-offset",
        DimensionAnchor::WallStart,
        window_anchor(WindowAnchor::Right),
        DimensionDirection::Forward,
        Length::from_feet(7.0),
    ));
    let width = driving_dimension(
        "width",
        window_anchor(WindowAnchor::Left),
        window_anchor(WindowAnchor::Right),
        DimensionDirection::Forward,
        Length::from_feet(4.0),
    );

    wall.validate().unwrap();
    assert!(
        wall.dimensions
            .iter()
            .all(|dimension| wall.is_driving_dimension_satisfied(dimension))
    );
    assert!(wall.would_overconstrain_driving_dimension(&width));

    wall.dimensions.push(width);
    assert!(matches!(
        wall.validate(),
        Err(ModelError::OverconstrainedDimension { .. })
    ));
}

#[test]
fn width_and_one_edge_offset_are_valid_but_second_edge_offset_overconstrains() {
    let mut wall = wall_with_window(Length::from_feet(5.0), Length::from_feet(4.0));
    wall.dimensions.push(driving_dimension(
        "width",
        window_anchor(WindowAnchor::Left),
        window_anchor(WindowAnchor::Right),
        DimensionDirection::Forward,
        Length::from_feet(4.0),
    ));
    wall.dimensions.push(driving_dimension(
        "left-offset",
        DimensionAnchor::WallStart,
        window_anchor(WindowAnchor::Left),
        DimensionDirection::Forward,
        Length::from_feet(3.0),
    ));
    let right_offset = driving_dimension(
        "right-offset",
        DimensionAnchor::WallStart,
        window_anchor(WindowAnchor::Right),
        DimensionDirection::Forward,
        Length::from_feet(7.0),
    );

    wall.validate().unwrap();
    assert!(wall.would_overconstrain_driving_dimension(&right_offset));
}

#[test]
fn reference_dimensions_do_not_participate_in_overconstraint_checks() {
    let mut wall = wall_with_window(Length::from_feet(5.0), Length::from_feet(4.0));
    wall.dimensions.push(DimensionConstraint::new(
        "reference-width",
        "Reference width",
        DimensionKind::Reference,
        window_anchor(WindowAnchor::Left),
        window_anchor(WindowAnchor::Right),
        DimensionDirection::Forward,
        None,
    ));
    let width = driving_dimension(
        "width",
        window_anchor(WindowAnchor::Left),
        window_anchor(WindowAnchor::Right),
        DimensionDirection::Forward,
        Length::from_feet(4.0),
    );

    wall.validate().unwrap();
    assert!(!wall.would_overconstrain_driving_dimension(&width));
}

#[test]
fn duplicate_wall_length_dimension_overconstrains() {
    let code = FramingDefaults::irc_2021_starter();
    let mut wall = Wall::new("wall", "Wall", Length::from_feet(12.0), &code);
    wall.dimensions.push(driving_dimension(
        "length",
        DimensionAnchor::WallStart,
        DimensionAnchor::WallEnd,
        DimensionDirection::Forward,
        Length::from_feet(12.0),
    ));
    let duplicate = driving_dimension(
        "length-copy",
        DimensionAnchor::WallStart,
        DimensionAnchor::WallEnd,
        DimensionDirection::Forward,
        Length::from_feet(12.0),
    );

    wall.validate().unwrap();
    assert!(wall.would_overconstrain_driving_dimension(&duplicate));
}

#[test]
fn reversed_equivalent_dimension_overconstrains() {
    let mut wall = wall_with_window(Length::from_feet(5.0), Length::from_feet(4.0));
    wall.dimensions.push(driving_dimension(
        "left-offset",
        DimensionAnchor::WallStart,
        window_anchor(WindowAnchor::Left),
        DimensionDirection::Forward,
        Length::from_feet(3.0),
    ));
    let reversed = driving_dimension(
        "left-offset-reversed",
        window_anchor(WindowAnchor::Left),
        DimensionAnchor::WallStart,
        DimensionDirection::Backward,
        Length::from_feet(3.0),
    );

    wall.validate().unwrap();
    assert!(wall.would_overconstrain_driving_dimension(&reversed));
}

#[test]
fn new_driving_dimension_can_be_overconstrained_even_when_measured_value_matches() {
    let code = FramingDefaults::irc_2021_starter();
    let mut wall = Wall::new("wall", "Wall", Length::from_feet(12.0), &code);
    wall.openings.push(Opening::window(
        "window",
        "Window",
        Length::from_feet(4.0),
        Length::from_feet(3.0),
        Length::from_feet(3.0),
        Length::from_feet(3.0),
    ));
    wall.dimensions.push(DimensionConstraint::new(
        "center",
        "Center",
        DimensionKind::Driving,
        DimensionAnchor::WallStart,
        window_anchor(WindowAnchor::Center),
        DimensionDirection::Forward,
        Some(Length::from_feet(4.0)),
    ));
    wall.dimensions.push(DimensionConstraint::new(
        "width",
        "Width",
        DimensionKind::Driving,
        DimensionAnchor::OpeningLeft {
            opening: ElementId::new(("window").to_owned()),
        },
        DimensionAnchor::OpeningRight {
            opening: ElementId::new(("window").to_owned()),
        },
        DimensionDirection::Forward,
        Some(Length::from_feet(3.0)),
    ));
    let candidate = DimensionConstraint::new(
        "left-offset",
        "Left offset",
        DimensionKind::Driving,
        DimensionAnchor::WallStart,
        DimensionAnchor::OpeningLeft {
            opening: ElementId::new(("window").to_owned()),
        },
        DimensionDirection::Forward,
        Some(Length::from_feet(2.5)),
    );

    wall.validate().unwrap();
    assert!(wall.would_overconstrain_driving_dimension(&candidate));

    wall.dimensions.push(candidate);
    assert!(matches!(
        wall.validate(),
        Err(ModelError::OverconstrainedDimension { .. })
    ));
}

#[test]
fn layer_r_value_uses_exact_thickness_not_whole_inches() {
    // 5/8" (0.625") of an R/in = 900 material: 0.625 * 16 = 10 ticks; the
    // exact contribution is 900 * 10 / 16 = 562 milli-R, NOT 900 (which
    // whole-inch rounding would yield).
    let drywall = Material::solid_color("mat-drywall", "Drywall", [240, 240, 240])
        .with_r_per_inch_milli(900);
    let thickness = Length::from_inches(0.625);
    assert_eq!(thickness.ticks(), 10);
    assert_eq!(drywall.r_value_milli(thickness), 562);

    // A whole-inch system swatch must agree: one 5/8" drywall layer over a
    // single positive-thickness framing layer contributes the exact 562, not
    // a rounded 900.
    let stud = Material::solid_color("mat-stud", "Stud", [200, 170, 120]);
    let system = ConstructionSystem {
        id: ElementId::new(("system-test").to_owned()),
        name: "Test".to_owned(),
        kind: SystemKind::Wall,
        source: None,
        layers: vec![
            ConstructionLayer::new(LayerFunction::InteriorFinish, "mat-drywall", thickness),
            ConstructionLayer::new(
                LayerFunction::Framing,
                "mat-stud",
                Length::from_whole_inches(4),
            )
            .with_framing(FramingSpec {
                member: BoardProfile::TwoByFour,
                spacing: Length::from_whole_inches(16),
                pattern: FramingPattern::Single,
                member_family: MemberFamily::Stud,
                cavity_material: None,
            }),
        ],
    };
    assert_eq!(system.r_value_milli(&[drywall, stud]), 562);
}

#[test]
fn roof_cathedral_flags_align_per_plane() {
    let ft = Length::from_feet;
    let footprint = |x0: f64, x1: f64| {
        vec![
            Point2::new(ft(x0), Length::ZERO),
            Point2::new(ft(x1), Length::ZERO),
            Point2::new(ft(x1), ft(12.0)),
            Point2::new(ft(x0), ft(12.0)),
        ]
    };
    let plane = |id: &str, x0: f64, x1: f64| {
        RoofPlane::new(
            id,
            id,
            "level-1",
            "system-roof",
            footprint(x0, x1),
            Slope::new(Length::from_whole_inches(4), Length::from_whole_inches(12)),
            0,
            ft(8.0),
        )
    };

    let mut model = surface_systems_model();
    model.roof_planes.push(plane("roof-covered", 0.0, 20.0));
    model.roof_planes.push(plane("roof-cathedral", 30.0, 50.0));
    model.ceilings.push(Ceiling::new(
        "ceiling-1",
        "Ceiling",
        "level-1",
        "system-ceiling",
        SurfaceRegion::Polygon(footprint(0.0, 20.0)),
        Length::from_whole_inches(12),
    ));

    let rooms = Vec::new();
    assert_eq!(model.roof_cathedral_flags(&rooms), vec![false, true]);
    for (plane, &flag) in model.roof_planes.iter().zip(model.roof_cathedral_flags(&rooms).iter()) {
        assert_eq!(model.roof_plane_is_cathedral(plane, &rooms), flag);
    }
}

#[test]
fn room_ceilings_resolve_through_room_outlines() {
    let ft = Length::from_feet;
    let footprint = vec![
        Point2::new(Length::ZERO, Length::ZERO),
        Point2::new(ft(20.0), Length::ZERO),
        Point2::new(ft(20.0), ft(12.0)),
        Point2::new(Length::ZERO, ft(12.0)),
    ];
    let mut model = surface_systems_model();
    model.roof_planes.push(RoofPlane::new(
        "roof-1",
        "Roof",
        "level-1",
        "system-roof",
        footprint.clone(),
        Slope::new(Length::from_whole_inches(4), Length::from_whole_inches(12)),
        0,
        ft(8.0),
    ));
    model.ceilings.push(Ceiling::new(
        "ceiling-1",
        "Ceiling",
        "level-1",
        "system-ceiling",
        SurfaceRegion::Room(ElementId::new("room-1".to_owned())),
        Length::from_whole_inches(12),
    ));
    assert_eq!(model.roof_cathedral_flags(&Vec::new()), vec![true], "an unresolved room covers nothing");
    let rooms = vec![(ElementId::new("room-1".to_owned()), footprint)];
    assert_eq!(model.roof_cathedral_flags(&rooms), vec![false]);
}

fn sorted_ids(ids: Vec<ElementId>) -> std::collections::BTreeSet<String> {
    ids.iter().map(|id| id.as_str().to_owned()).collect()
}

/// The starter catalog's roof system, which the demo roof planes reference.
fn starter_roof_system() -> ConstructionSystem {
    ConstructionSystem {
        id: ElementId::new("system-roof-1".to_owned()),
        name: "Roof".to_owned(),
        kind: SystemKind::Roof,
        source: None,
        layers: vec![ConstructionLayer::new(LayerFunction::Framing, "mat-spf", BoardProfile::TwoBySix.nominal_depth())
            .with_framing(FramingSpec {
                member: BoardProfile::TwoBySix,
                spacing: Length::from_whole_inches(16),
                pattern: FramingPattern::Single,
                member_family: MemberFamily::Rafter,
                cavity_material: None,
            })],
    }
}

#[test]
fn connected_roof_fields_require_one_coherent_overhang_pair() {
    let mut model = simple_gable_model();
    model.systems.push(starter_roof_system());
    assert!(model.validate().is_ok());
    assert_eq!(
        sorted_ids(model.connected_roof_plane_ids(&ElementId::new("roof-south".to_owned()))),
        std::collections::BTreeSet::from(["roof-north".to_owned(), "roof-south".to_owned()])
    );
    model.roof_planes[0].eave_overhang = Length::from_feet(1.0);
    assert!(matches!(model.validate(), Err(ModelError::RoofPlaneConnectedOverhangMismatch { .. })));
}

#[test]
fn roof_field_excludes_other_levels_and_unknown_planes() {
    let mut model = simple_gable_model();
    let p = |x, y| Point2::new(Length::from_feet(x), Length::from_feet(y));
    let slope = Slope::new(Length::from_whole_inches(6), Length::from_whole_inches(12));
    model.roof_planes.push(RoofPlane::new(
        "roof-upper",
        "Upper",
        "level-2",
        "system-roof-1",
        vec![p(0.0, 4.0), p(12.0, 4.0), p(12.0, 8.0), p(0.0, 8.0)],
        slope,
        0,
        Length::from_feet(8.0),
    ));
    model.roof_planes.push(RoofPlane::new(
        "roof-porch",
        "Porch",
        "level-1",
        "system-roof-1",
        vec![p(12.0, 8.0), p(16.0, 8.0), p(16.0, 12.0), p(12.0, 12.0)],
        slope,
        0,
        Length::from_feet(8.0),
    ));
    let field = sorted_ids(model.connected_roof_plane_ids(&ElementId::new("roof-north".to_owned())));
    assert_eq!(field, std::collections::BTreeSet::from(["roof-north".to_owned(), "roof-south".to_owned()]));
    let upper = sorted_ids(model.connected_roof_plane_ids(&ElementId::new("roof-upper".to_owned())));
    assert_eq!(upper, std::collections::BTreeSet::from(["roof-upper".to_owned()]));
    assert!(model.connected_roof_plane_ids(&ElementId::new("roof-missing".to_owned())).is_empty());
}

#[test]
fn gable_profile_height_and_outline_come_from_its_elevations() {
    let profile = framer::surfaces::GableWallProfile {
        width: Length::from_feet(8.0),
        peak_x: Length::from_feet(4.0),
        base_elevation: Length::from_feet(8.0),
        peak_elevation: Length::from_feet(10.0),
        peak: Point2::new(Length::from_feet(12.0), Length::from_feet(4.0)),
    };
    assert_eq!(profile.peak_height(), Length::from_feet(2.0));
    assert_eq!(
        profile.outline(),
        vec![
            Point2::new(Length::ZERO, Length::ZERO),
            Point2::new(Length::from_feet(8.0), Length::ZERO),
            Point2::new(Length::from_feet(4.0), Length::from_feet(2.0)),
        ]
    );
}

fn inch_point(x: i64, y: i64) -> Point2 {
    Point2::new(Length::from_whole_inches(x), Length::from_whole_inches(y))
}

fn level_wall(model: &BuildingModel, id: &str, a: Point2, b: Point2) -> Wall {
    let defaults = model.framing_defaults();
    Wall::new(id, id, Length::from_feet(1.0), &defaults).with_placement("level-1", a, b)
}

#[test]
fn level_wall_loop_outline_reports_concave_l_footprint_corner() {
    let mut model = BuildingModel::new(starter());
    let (a, b) = (72, 144);
    let pts = [inch_point(0, 0), inch_point(b, 0), inch_point(b, a), inch_point(a, a), inch_point(a, b), inch_point(0, b)];
    for index in 0..pts.len() {
        let next = (index + 1) % pts.len();
        let wall = level_wall(&model, &format!("w-{index}"), pts[index], pts[next]);
        model.walls.push(wall);
    }

    let outline = framer::footprint::level_wall_loop_outline(&model, &ElementId::new("level-1".to_owned()))
        .expect("simple L perimeter loop");

    assert_eq!(outline.len(), 6);
    assert_eq!(framer::topology::concave_polygon_corners(&outline), vec![inch_point(a, a)]);
}

#[test]
fn level_wall_loop_outline_rejects_partitioned_wall_graph() {
    let mut model = BuildingModel::new(starter());
    let (w, h) = (144, 96);
    let corners = [inch_point(0, 0), inch_point(w, 0), inch_point(w, h), inch_point(0, h)];
    for index in 0..4 {
        let wall = level_wall(&model, &format!("w-{index}"), corners[index], corners[(index + 1) % 4]);
        model.walls.push(wall);
    }
    let interior = level_wall(&model, "interior", inch_point(72, 0), inch_point(72, 96));
    model.walls.push(interior);

    assert!(framer::footprint::level_wall_loop_outline(&model, &ElementId::new("level-1".to_owned())).is_none());
}

#[test]
fn level_wall_loop_outline_winds_a_clockwise_loop_counter_clockwise() {
    let mut model = BuildingModel::new(starter());
    let corners = [inch_point(0, 0), inch_point(0, 96), inch_point(144, 96), inch_point(144, 0)];
    for index in 0..4 {
        let wall = level_wall(&model, &format!("w-{index}"), corners[index], corners[(index + 1) % 4]);
        model.walls.push(wall);
    }
    let outline = framer::footprint::level_wall_loop_outline(&model, &ElementId::new("level-1".to_owned())).unwrap();
    assert_eq!(outline.len(), 4);
    assert!(framer::topology::polygon_signed_area2(&outline) > 0);
    assert!(framer::footprint::level_wall_loop_outline(&model, &ElementId::new("level-2".to_owned())).is_none());

    // Two separate rooms are not one footprint.
    let far = [inch_point(300, 0), inch_point(400, 0), inch_point(400, 100)];
    for index in 0..3 {
        let wall = level_wall(&model, &format!("far-{index}"), far[index], far[(index + 1) % 3]);
        model.walls.push(wall);
    }
    assert!(framer::footprint::level_wall_loop_outline(&model, &ElementId::new("level-1".to_owned())).is_none());
}

#[test]
fn project_document_validates_format_schema_then_model() {
    let document = framer::project::ProjectDocument::new(BuildingModel::demo_wall(starter()));
    assert_eq!(document.format, "framer.project");
    assert_eq!(document.schema_version, framer::project::PROJECT_SCHEMA_VERSION);
    assert!(document.validate().is_ok());

    let mut wrong_format = framer::project::ProjectDocument::new(BuildingModel::demo_wall(starter()));
    wrong_format.format = "framer.library".to_owned();
    assert!(matches!(
        wrong_format.validate(),
        Err(framer::project::ProjectError::InvalidFormat { ref found }) if found == "framer.library"
    ));

    let mut old_schema = framer::project::ProjectDocument::new(BuildingModel::demo_wall(starter()));
    old_schema.schema_version = 9;
    assert!(matches!(
        old_schema.validate(),
        Err(framer::project::ProjectError::UnsupportedSchemaVersion { found: 9, supported: 10 })
    ));

    let mut broken = framer::project::ProjectDocument::new(BuildingModel::demo_wall(starter()));
    broken.authored.walls[0].system = ElementId::new("system-missing".to_owned());
    assert!(matches!(broken.validate(), Err(framer::project::ProjectError::Model(_))));
    let model = broken.into_model();
    assert_eq!(model.walls[0].system.as_str(), "system-missing");
}

#[test]
fn matched_bearing_depth_reads_the_eave_wall_framing() {
    let mut model = simple_gable_model();
    let depth = BoardProfile::TwoBySix.nominal_depth();
    assert_eq!(framer::roofs::matched_bearing_depth(&model, &model.roof_planes[0]), Some(depth));
    // The north plane's eave edge runs (12,8)-(0,8): the north wall, authored the same way.
    assert_eq!(framer::roofs::matched_bearing_depth(&model, &model.roof_planes[1]), Some(depth));
    // Without a wall under the eave there is no bearing depth.
    model.walls.remove(0);
    assert_eq!(framer::roofs::matched_bearing_depth(&model, &model.roof_planes[0]), None);
    model.roof_planes[1].eave_edge = 9;
    assert_eq!(framer::roofs::matched_bearing_depth(&model, &model.roof_planes[1]), None);
}

fn feet_point(x: f64, y: f64) -> Point2 {
    Point2::new(Length::from_feet(x), Length::from_feet(y))
}

fn half_ticks_to_inches(half_ticks: i64) -> f64 {
    half_ticks as f64 / 32.0
}

#[test]
fn wall_corner_lap_uses_the_adjoining_wall_thickness() {
    let mut model = BuildingModel::new(starter());
    let a = level_wall(&model, "a", feet_point(0.0, 0.0), feet_point(10.0, 0.0));
    let b = level_wall(&model, "b", feet_point(10.0, 0.0), feet_point(10.0, 8.0));
    model.walls.push(a);
    model.walls.push(b);
    let mut thick = stand_in_system("system-wall-thick");
    let last = thick.layers.len() - 1;
    thick.layers[last].thickness = Length { ticks: thick.layers[last].thickness.ticks + 32 };
    model.walls[1].system = ElementId::new("system-wall-thick".to_owned());
    model.systems.push(thick);
    model.reconcile_joins();

    let a_half = model.system_for(&model.walls[0]).unwrap().total_thickness().ticks as f64 / 32.0;
    let b_half = model.system_for(&model.walls[1]).unwrap().total_thickness().ticks as f64 / 32.0;
    let no_rooms: Vec<(ElementId, bool)> = Vec::new();
    let span_a = model.wall_envelope_span(&model.walls[0], &no_rooms);
    let span_b = model.wall_envelope_span(&model.walls[1], &no_rooms);
    assert_eq!((half_ticks_to_inches(span_a.0), half_ticks_to_inches(span_a.1)), (0.0, 120.0 + b_half));
    assert_eq!((half_ticks_to_inches(span_b.0), half_ticks_to_inches(span_b.1)), (a_half, 96.0));
}

#[test]
fn wall_corner_lap_clamps_an_inverted_short_span() {
    let mut model = BuildingModel::new(starter());
    let a = level_wall(&model, "a", feet_point(0.0, 0.0), feet_point(10.0, 0.0));
    let z = level_wall(&model, "z", feet_point(10.0, 0.0), feet_point(10.0, 1.0 / 12.0));
    model.walls.push(a);
    model.walls.push(z);
    model.reconcile_joins();

    let no_rooms: Vec<(ElementId, bool)> = Vec::new();
    let span = model.wall_envelope_span(&model.walls[1], &no_rooms);
    assert_eq!((half_ticks_to_inches(span.0), half_ticks_to_inches(span.1)), (0.5, 0.5));
}

#[test]
fn wall_envelope_span_laps_open_corner_by_stable_wall_id() {
    let mut model = BuildingModel::new(starter());
    let a = level_wall(&model, "a", feet_point(0.0, 0.0), feet_point(10.0, 0.0));
    let b = level_wall(&model, "b", feet_point(10.0, 0.0), feet_point(10.0, 8.0));
    model.walls.push(a);
    model.walls.push(b);
    model.reconcile_joins();

    let a_half = model.system_for(&model.walls[0]).unwrap().total_thickness().ticks as f64 / 32.0;
    let b_half = model.system_for(&model.walls[1]).unwrap().total_thickness().ticks as f64 / 32.0;
    let no_rooms: Vec<(ElementId, bool)> = Vec::new();
    let span_a = model.wall_envelope_span(&model.walls[0], &no_rooms);
    let span_b = model.wall_envelope_span(&model.walls[1], &no_rooms);
    assert_eq!((half_ticks_to_inches(span_a.0), half_ticks_to_inches(span_a.1)), (0.0, 120.0 + b_half));
    assert_eq!((half_ticks_to_inches(span_b.0), half_ticks_to_inches(span_b.1)), (a_half, 96.0));
}

#[test]
fn wall_envelope_span_butts_partition_against_through_wall_face() {
    let mut model = BuildingModel::new(starter());
    let through = level_wall(&model, "through", feet_point(0.0, 0.0), feet_point(20.0, 0.0));
    let partition = level_wall(&model, "partition", feet_point(10.0, 0.0), feet_point(10.0, 8.0));
    model.walls.push(through);
    model.walls.push(partition);
    model.reconcile_joins();

    let no_rooms: Vec<(ElementId, bool)> = Vec::new();
    let span = model.wall_envelope_span(&model.walls[0], &no_rooms);
    assert_eq!((half_ticks_to_inches(span.0), half_ticks_to_inches(span.1)), (0.0, 240.0));
    let through_half = model.system_for(&model.walls[0]).unwrap().total_thickness().ticks as f64 / 32.0;
    let span = model.wall_envelope_span(&model.walls[1], &no_rooms);
    assert_eq!((half_ticks_to_inches(span.0), half_ticks_to_inches(span.1)), (through_half, 96.0));
}
