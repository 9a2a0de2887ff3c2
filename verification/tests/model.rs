use framer::element::ElementId;
use framer::error::ModelError;
use framer::library::Library;
use framer::material::Material;
use framer::model::{BuildingModel, LibraryStamp};
use framer::objects::{Furnishing, FurnishingInstance};
use framer::standards::StandardsPack;
use framer::surfaces::{FloorDeck, SurfaceRegion};
use framer::system::{
    BoardProfile, ConstructionLayer, ConstructionSystem, FramingPattern, FramingSpec, LayerFunction, MemberFamily,
    SystemKind, WallExposure,
};
use framer::units::{Length, Point2};

fn framing_layer(material: &str, family: MemberFamily) -> ConstructionLayer {
    ConstructionLayer::new(LayerFunction::Framing, material, BoardProfile::TwoBySix.nominal_depth()).with_framing(FramingSpec {
        member: BoardProfile::TwoBySix,
        spacing: Length::from_whole_inches(16),
        pattern: FramingPattern::Single,
        member_family: family,
        cavity_material: None,
    })
}

fn system(id: &str, kind: SystemKind, family: MemberFamily) -> ConstructionSystem {
    ConstructionSystem {
        id: ElementId::new(id.to_owned()),
        name: id.to_owned(),
        kind,
        source: None,
        layers: vec![framing_layer("mat-spf", family)],
    }
}

/// A small stand-in for the starter catalog: one framing lumber material and
/// the two wall systems the demo models reference.
fn starter() -> Library {
    Library {
        uid: "8f6ebee0-fbdc-4f29-9d90-0e3f3f0640a8".to_owned(),
        version_id: "019e8b10-9b30-7c2b-8b4e-1db251cb8221".to_owned(),
        version: "0.1.0".to_owned(),
        coordinate: "framer-lib://framer/starter".to_owned(),
        materials: vec![Material::solid_color("mat-spf", "SPF lumber", [200, 170, 120])],
        systems: vec![
            system("system-wall-exterior-1", SystemKind::Wall, MemberFamily::Stud),
            system("system-wall-interior-1", SystemKind::Wall, MemberFamily::Stud),
        ],
    }
}

fn surface_systems_model() -> BuildingModel {
    let mut model = BuildingModel::new(starter());
    for (id, kind, family) in [
        ("system-roof", SystemKind::Roof, MemberFamily::Rafter),
        ("system-floor", SystemKind::Floor, MemberFamily::FloorJoist),
        ("system-ceiling", SystemKind::Ceiling, MemberFamily::CeilingJoist),
    ] {
        model.systems.push(system(id, kind, family));
    }
    model
}

#[test]
fn floor_deck_polygon_region_rejects_too_few_points() {
    let mut model = surface_systems_model();
    model.floor_decks.push(FloorDeck::new(
        "deck-1",
        "Deck",
        "level-1",
        "system-floor",
        SurfaceRegion::Polygon(vec![Point2::new(Length::zero(), Length::zero())]),
    ));

    assert!(matches!(model.validate(), Err(ModelError::SurfaceRegionPolygonTooFewPoints { .. })));
}

#[test]
fn framing_layer_count_rule_applies_to_every_system_kind() {
    let mut model = surface_systems_model();
    let roof_system = model.systems.iter_mut().find(|system| system.id == ElementId::new("system-roof".to_owned())).unwrap();
    roof_system.layers = vec![ConstructionLayer::new(LayerFunction::Roofing, "mat-spf", Length::from_whole_inches(1))];

    assert!(matches!(model.validate(), Err(ModelError::SystemFramingLayerCount { found: 0, .. })));
}

#[test]
fn exposure_is_kind_aware() {
    fn system_with(kind: SystemKind, functions: &[LayerFunction]) -> ConstructionSystem {
        ConstructionSystem {
            id: ElementId::new("system-exposure".to_owned()),
            name: "Exposure".to_owned(),
            kind,
            source: None,
            layers: functions
                .iter()
                .map(|&function| ConstructionLayer::new(function, "mat-x", Length::from_whole_inches(1)))
                .collect(),
        }
    }

    assert_eq!(system_with(SystemKind::Roof, &[LayerFunction::Roofing, LayerFunction::Sheathing]).exposure(), WallExposure::Exterior);
    assert_eq!(system_with(SystemKind::Floor, &[LayerFunction::Roofing, LayerFunction::Cladding]).exposure(), WallExposure::Interior);
    assert_eq!(
        system_with(SystemKind::Ceiling, &[LayerFunction::CeilingFinish, LayerFunction::Sheathing]).exposure(),
        WallExposure::Interior
    );
    assert_eq!(
        system_with(SystemKind::Wall, &[LayerFunction::InteriorFinish, LayerFunction::Cladding]).exposure(),
        WallExposure::Exterior
    );
    assert_eq!(system_with(SystemKind::Wall, &[LayerFunction::InteriorFinish]).exposure(), WallExposure::Interior);
}

#[test]
fn model_validation_rejects_duplicate_standards_stack_entry() {
    let mut model = BuildingModel::new(starter());
    let first = model.standards[0].clone();
    model.standards.push(first);

    assert!(matches!(
        model.validate(),
        Err(ModelError::StandardsStackDuplicatePack { pack }) if pack == ElementId::new("std-irc-2021".to_owned())
    ));
}

#[test]
fn model_validation_rejects_unknown_standards_stack_entry() {
    let mut model = BuildingModel::new(starter());
    model.standards.push(ElementId::new("std-missing".to_owned()));

    assert!(matches!(
        model.validate(),
        Err(ModelError::StandardsStackReferencesUnknownPack { pack }) if pack == ElementId::new("std-missing".to_owned())
    ));
}

#[test]
fn base_standards_name_uses_first_resolvable_standards_pack() {
    let mut model = BuildingModel::new(starter());
    let base_name = model.standards_packs[0].name.clone();
    let mut overlay = StandardsPack::irc_2021_starter();
    overlay.id = ElementId::new("std-local-overlay".to_owned());
    overlay.name = "Local overlay".to_owned();

    model.standards.push(overlay.id.clone());
    model.standards_packs.push(overlay);

    model.validate().unwrap();
    assert_eq!(model.base_standards_name(), Some(base_name.as_str()));
}

#[test]
fn model_validation_treats_standards_pack_ids_as_global_ids() {
    let mut model = BuildingModel::new(starter());
    model.standards[0] = ElementId::new("level-1".to_owned());
    model.standards_packs[0].id = ElementId::new("level-1".to_owned());

    assert!(matches!(
        model.validate(),
        Err(ModelError::DuplicateElementId { id }) if id == ElementId::new("level-1".to_owned())
    ));
}

#[test]
fn removing_wall_cascades_joins_that_reference_it() {
    let mut model = BuildingModel::demo_shell(starter());

    assert!(model.remove_wall(&ElementId::new("wall-front".to_owned())));

    assert!(model.walls.iter().all(|wall| wall.id.0 != "wall-front"));
    assert_eq!(model.walls.len(), 3);
    assert!(model.wall_joins.iter().all(|join| join.first_wall.0 != "wall-front" && join.second_wall.0 != "wall-front"));
    assert_eq!(
        model.wall_joins.iter().map(|join| join.id.0.as_str()).collect::<Vec<_>>(),
        vec!["join-back-left", "join-right-back"]
    );
    model.validate().unwrap();
}

#[test]
fn removing_unknown_wall_is_a_no_op() {
    let mut model = BuildingModel::demo_shell(starter());
    let walls_before = model.walls.len();
    let joins_before = model.wall_joins.len();

    assert!(!model.remove_wall(&ElementId::new("does-not-exist".to_owned())));

    assert_eq!(model.walls.len(), walls_before);
    assert_eq!(model.wall_joins.len(), joins_before);
}

#[test]
fn object_placements_reject_missing_families_and_levels() {
    let mut model = BuildingModel::new(starter());
    model.furnishing_instances.push(FurnishingInstance::new(
        "furnishing-instance-1",
        "Missing chair",
        "furnishing-missing",
        "level-1",
        Point2::new(Length::zero(), Length::zero()),
    ));

    assert!(matches!(model.validate(), Err(ModelError::FurnishingInstanceReferencesUnknownFamily { .. })));

    model.furnishings.push(Furnishing::new(
        "furnishing-missing",
        "Chair",
        Length::from_whole_inches(18),
        Length::from_whole_inches(18),
        Length::from_whole_inches(36),
    ));
    model.furnishing_instances[0].level = ElementId::new("level-missing".to_owned());

    assert!(matches!(model.validate(), Err(ModelError::FurnishingInstanceReferencesUnknownLevel { .. })));
}

#[test]
fn demo_shell_validates_and_is_sorted() {
    let model = BuildingModel::demo_shell(starter());
    model.validate().unwrap();
    let ids: Vec<&str> = model.walls.iter().map(|wall| wall.id.0.as_str()).collect();
    assert_eq!(ids, vec!["wall-back", "wall-front", "wall-left", "wall-right"]);
}

#[test]
fn framing_defaults_use_last_resolvable_standards_pack() {
    let mut model = BuildingModel::new(starter());
    let mut overlay = StandardsPack::irc_2021_starter();
    overlay.id = ElementId::new("std-local-overlay".to_owned());
    overlay.name = "Local overlay".to_owned();
    overlay.tables.defaults.default_wall_height = Length::from_whole_inches(108);
    overlay.tables.defaults.stud_profile = BoardProfile::TwoBySix;

    model.standards.push(overlay.id.clone());
    model.standards_packs.push(overlay);

    model.validate().unwrap();
    let defaults = model.framing_defaults();
    assert_eq!(defaults.default_wall_height, Length::from_whole_inches(108));
    assert_eq!(defaults.stud_profile, BoardProfile::TwoBySix);
}

#[test]
fn model_validation_requires_a_level() {
    let mut model = BuildingModel::new(starter());
    model.levels.clear();
    assert!(matches!(model.validate(), Err(ModelError::MissingLevel)));
}

/// Which side each wall of a counter-clockwise perimeter keeps its room on.
fn perimeter_sides(model: &BuildingModel, plus: bool) -> Vec<(ElementId, bool)> {
    model.walls.iter().map(|wall| (wall.id.clone(), plus)).collect()
}

#[test]
fn wall_corner_laps_follow_room_winding_and_counter_lap_upper_plate() {
    let model = BuildingModel::demo_shell(starter());
    let sides = perimeter_sides(&model, true);
    let front = model.walls.iter().find(|wall| wall.id.as_str() == "wall-front").unwrap();
    let primary = model.wall_framing_span(front, &sides);
    let counter = model.wall_counter_lap_framing_span(front, &sides);

    assert!(
        primary.0 > Length::zero() && primary.1 > front.length,
        "the outgoing start butts and the incoming end runs through"
    );
    assert!(counter.0 < Length::zero() && counter.1 < front.length, "the upper plate reverses both corner seams");
    assert_ne!(primary, counter);
}

#[test]
fn wall_corner_lap_world_geometry_ignores_authored_wall_direction() {
    let model = BuildingModel::demo_shell(starter());
    let sides = perimeter_sides(&model, true);
    let mut reversed = BuildingModel::demo_shell(starter());
    for wall in &mut reversed.walls {
        std::mem::swap(&mut wall.start, &mut wall.end);
    }
    // Reversing a wall puts its room on the other side of start-to-end.
    let reversed_sides = perimeter_sides(&reversed, false);

    for wall in &model.walls {
        let reversed_wall = reversed.walls.iter().find(|candidate| candidate.id == wall.id).unwrap();
        let (start, end) = model.wall_framing_span(wall, &sides);
        let (reversed_start, reversed_end) = reversed.wall_framing_span(reversed_wall, &reversed_sides);
        let mut points = [wall.point_at_local_x(start), wall.point_at_local_x(end)];
        let mut reversed_points =
            [reversed_wall.point_at_local_x(reversed_start), reversed_wall.point_at_local_x(reversed_end)];
        points.sort_by_key(|point| (point.x.ticks(), point.y.ticks()));
        reversed_points.sort_by_key(|point| (point.x.ticks(), point.y.ticks()));
        assert_eq!(points, reversed_points, "{}", wall.id.as_str());
    }
}

#[test]
fn wall_corner_lap_roles_ignore_vector_and_join_field_order() {
    let model = BuildingModel::demo_shell(starter());
    let sides = perimeter_sides(&model, true);
    let mut reordered = BuildingModel::demo_shell(starter());
    reordered.walls.reverse();
    reordered.wall_joins.reverse();
    for join in &mut reordered.wall_joins {
        std::mem::swap(&mut join.first_wall, &mut join.second_wall);
    }
    for wall in &model.walls {
        let reordered_wall = reordered.walls.iter().find(|candidate| candidate.id == wall.id).unwrap();
        assert_eq!(
            model.wall_framing_span(wall, &sides),
            reordered.wall_framing_span(reordered_wall, &sides),
            "{} framing",
            wall.id.as_str()
        );
        assert_eq!(
            model.wall_counter_lap_framing_span(wall, &sides),
            reordered.wall_counter_lap_framing_span(reordered_wall, &sides),
            "{} counter lap",
            wall.id.as_str()
        );
    }
}

#[test]
fn validate_rejects_dangling_layer_material_reference() {
    let mut library = starter();
    library.systems[0].layers[0].material = ElementId::new("mat-missing".to_owned());

    assert!(matches!(
        framer::library::save_library(library),
        Err(framer::library::LibraryError::Model(ModelError::LayerReferencesUnknownMaterial { .. }))
    ));
}

fn library_document(format: &str, schema_version: u32) -> framer::library::LibraryDocument {
    let mut document = framer::library::LibraryDocument::new(starter());
    document.format = format.to_owned();
    document.schema_version = schema_version;
    document
}

#[test]
fn load_library_rejects_project_format() {
    assert!(matches!(
        library_document("framer.project", 1).validate(),
        Err(framer::library::LibraryError::InvalidFormat { found }) if found == "framer.project"
    ));
}

#[test]
fn load_library_rejects_old_schema_with_unsupported_version_error() {
    assert!(matches!(
        library_document("framer.library", 0).validate(),
        Err(framer::library::LibraryError::UnsupportedSchemaVersion {
            found: 0,
            supported: framer::library::LIBRARY_SCHEMA_VERSION
        })
    ));
}

#[test]
fn new_model_is_within_exact_range_and_validates() {
    let model = BuildingModel::new(starter());
    assert!(model.within_exact_range());
    assert!(model.validate().is_ok());
}

#[test]
fn far_away_coordinates_leave_the_exact_range() {
    let mut model = BuildingModel::demo_shell(starter());
    assert!(model.within_exact_range());
    model.wall_joins[0].point = Point2::new(Length::from_ticks(536_870_913), Length::zero());
    assert!(!model.within_exact_range());
}

#[test]
fn a_room_id_equal_to_a_wall_id_is_a_duplicate() {
    let mut model = BuildingModel::demo_two_bedroom(starter());
    model.rooms[0].id = model.walls[0].id.clone();
    assert!(matches!(model.validate(), Err(ModelError::DuplicateElementId { .. })));
}

#[test]
fn sorting_orders_library_stamps_by_uid_then_version() {
    let stamp = |uid: &str, version_id: &str| LibraryStamp {
        uid: uid.to_owned(),
        version_id: version_id.to_owned(),
        content_hash: String::new(),
        coordinate: String::new(),
        version: String::new(),
    };
    let mut model = BuildingModel::new(starter());
    model.libraries = vec![stamp("b", "1"), stamp("a", "2"), stamp("a", "1")];
    model.sort_deterministically();
    let order: Vec<(String, String)> = model.libraries.iter().map(|s| (s.uid.clone(), s.version_id.clone())).collect();
    assert_eq!(
        order,
        vec![("a".to_owned(), "1".to_owned()), ("a".to_owned(), "2".to_owned()), ("b".to_owned(), "1".to_owned())]
    );
}
