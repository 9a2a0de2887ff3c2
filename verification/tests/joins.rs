use framer::element::ElementId;
use framer::library::Library;
use framer::material::Material;
use framer::model::BuildingModel;
use framer::standards::FramingDefaults;
use framer::system::{
    BoardProfile, ConstructionLayer, ConstructionSystem, FramingPattern, FramingSpec, LayerFunction, MemberFamily,
    SystemKind,
};
use framer::units::{Length, Point2};
use framer::wall::{Opening, Wall, WallJoinKind};

fn system(id: &str) -> ConstructionSystem {
    ConstructionSystem {
        id: ElementId::new(id.to_owned()),
        name: id.to_owned(),
        kind: SystemKind::Wall,
        source: None,
        layers: vec![ConstructionLayer::new(LayerFunction::Framing, "mat-spf", BoardProfile::TwoBySix.nominal_depth())
            .with_framing(FramingSpec {
                member: BoardProfile::TwoBySix,
                spacing: Length::from_whole_inches(16),
                pattern: FramingPattern::Single,
                member_family: MemberFamily::Stud,
                cavity_material: None,
            })],
    }
}

fn starter() -> Library {
    Library {
        uid: "8f6ebee0-fbdc-4f29-9d90-0e3f3f0640a8".to_owned(),
        version_id: "019e8b10-9b30-7c2b-8b4e-1db251cb8221".to_owned(),
        version: "0.1.0".to_owned(),
        coordinate: "framer-lib://framer/starter".to_owned(),
        materials: vec![Material::solid_color("mat-spf", "SPF lumber", [200, 170, 120])],
        systems: vec![system("system-wall-exterior-1"), system("system-wall-interior-1")],
    }
}

fn inches(x: i64, y: i64) -> Point2 {
    Point2::new(Length::from_whole_inches(x), Length::from_whole_inches(y))
}

fn placed_wall(id: &str, start: Point2, end: Point2) -> Wall {
    Wall::new(id, id, Length::from_whole_inches(12), &FramingDefaults::irc_2021_starter()).with_placement("level-1", start, end)
}

fn join_ids(model: &BuildingModel) -> Vec<String> {
    let mut ids: Vec<String> = model.wall_joins.iter().map(|join| join.id.as_str().to_owned()).collect();
    ids.sort();
    ids
}

#[test]
fn two_bedroom_demo_has_its_walls_joins_and_rooms() {
    let model = BuildingModel::demo_two_bedroom(starter());
    assert_eq!(model.walls.len(), 6);
    assert_eq!(model.wall_joins.len(), 8);
    assert_eq!(model.rooms.len(), 3);
    assert!(model.validate().is_ok());
    let mid = model.walls.iter().find(|wall| wall.id.as_str() == "wall-mid").unwrap();
    assert_eq!(mid.system.as_str(), "system-wall-interior-1");
    let front = model.walls.iter().find(|wall| wall.id.as_str() == "wall-front").unwrap();
    assert_eq!(front.system.as_str(), "system-wall-exterior-1");
    assert_eq!(front.length, Length::from_whole_inches(288));
}

#[test]
fn reconciling_the_two_bedroom_plan_keeps_every_authored_join() {
    let mut model = BuildingModel::demo_two_bedroom(starter());
    let before = join_ids(&model);
    model.reconcile_joins();
    assert_eq!(join_ids(&model), before);
    let tee = model.wall_joins.iter().find(|join| join.id.as_str() == "join-mid-front").unwrap();
    assert_eq!(tee.kind, WallJoinKind::Tee);
    assert_eq!(tee.first_wall.as_str(), "wall-front");
    assert_eq!(tee.second_wall.as_str(), "wall-mid");
    assert_eq!(tee.name, "Center partition at front");
}

#[test]
fn reconciling_twice_changes_nothing() {
    let mut model = BuildingModel::demo_two_bedroom(starter());
    model.wall_joins.clear();
    model.reconcile_joins();
    let once: Vec<(String, String)> =
        model.wall_joins.iter().map(|join| (join.id.as_str().to_owned(), join.name.clone())).collect();
    model.reconcile_joins();
    let twice: Vec<(String, String)> =
        model.wall_joins.iter().map(|join| (join.id.as_str().to_owned(), join.name.clone())).collect();
    assert_eq!(once, twice);
}

#[test]
fn fresh_joins_take_numbered_ids_and_default_names() {
    let mut model = BuildingModel::new(starter());
    model.walls.push(placed_wall("a", inches(0, 0), inches(120, 0)));
    model.walls.push(placed_wall("b", inches(120, 0), inches(120, 96)));
    model.reconcile_joins();
    assert_eq!(model.wall_joins.len(), 1);
    let join = &model.wall_joins[0];
    assert_eq!(join.id.as_str(), "join-1");
    assert_eq!(join.name, "a \u{2013} b corner");
    assert_eq!(join.kind, WallJoinKind::Corner);
    assert_eq!(join.point, inches(120, 0));
}

#[test]
fn fresh_join_id_skips_ids_in_use() {
    let mut model = BuildingModel::new(starter());
    model.walls.push(placed_wall("a", inches(0, 0), inches(120, 0)));
    model.walls.push(placed_wall("b", inches(60, 0), inches(60, 96)));
    model.walls.push(placed_wall("c", inches(0, 50), inches(120, 50)));
    model.reconcile_joins();
    // a–b tee at (60,0), b–c cross at (60,50).
    assert_eq!(model.wall_joins.len(), 2);
    assert_eq!(model.wall_joins[0].id.as_str(), "join-1");
    assert_eq!(model.wall_joins[0].kind, WallJoinKind::Tee);
    assert_eq!(model.wall_joins[0].first_wall.as_str(), "a");
    assert_eq!(model.wall_joins[1].id.as_str(), "join-2");
    assert_eq!(model.wall_joins[1].kind, WallJoinKind::Cross);
    assert_eq!(model.wall_joins[1].name, "b \u{2013} c cross");
}

#[test]
fn collinear_segment_extends_the_wall_at_its_end() {
    let mut model = BuildingModel::new(starter());
    model.walls.push(placed_wall("a", inches(0, 0), inches(120, 0)));
    let level = ElementId::new("level-1".to_owned());
    let extended = model.extend_collinear_wall(&level, inches(120, 0), inches(180, 0));
    assert_eq!(extended, Some(ElementId::new("a".to_owned())));
    assert_eq!(model.walls[0].end, inches(180, 0));
    assert_eq!(model.walls[0].length, Length::from_whole_inches(180));
}

#[test]
fn extending_at_the_start_keeps_openings_in_place() {
    let mut model = BuildingModel::new(starter());
    let mut wall = placed_wall("a", inches(0, 0), inches(120, 0));
    wall.openings.push(Opening::door("door", "Door", Length::from_whole_inches(60), Length::from_whole_inches(36), Length::from_whole_inches(80)));
    model.walls.push(wall);
    let level = ElementId::new("level-1".to_owned());
    let extended = model.extend_collinear_wall(&level, inches(-60, 0), inches(0, 0));
    assert_eq!(extended, Some(ElementId::new("a".to_owned())));
    assert_eq!(model.walls[0].start, inches(-60, 0));
    assert_eq!(model.walls[0].length, Length::from_whole_inches(180));
    assert_eq!(model.walls[0].openings[0].center, Length::from_whole_inches(120));
}

#[test]
fn extension_is_refused_for_overlap_backtrack_or_diagonal() {
    let level = ElementId::new("level-1".to_owned());
    let mut model = BuildingModel::new(starter());
    model.walls.push(placed_wall("a", inches(0, 0), inches(120, 0)));
    model.walls.push(placed_wall("b", inches(150, 0), inches(200, 0)));
    assert_eq!(model.extend_collinear_wall(&level, inches(120, 0), inches(180, 0)), None, "another wall overlaps");
    assert_eq!(model.extend_collinear_wall(&level, inches(120, 0), inches(60, 0)), None, "a stroke back along the wall");
    assert_eq!(model.extend_collinear_wall(&level, inches(120, 0), inches(180, 40)), None, "not axis-aligned");
    assert_eq!(model.walls[0].end, inches(120, 0));
    let other = ElementId::new("level-2".to_owned());
    assert_eq!(model.extend_collinear_wall(&other, inches(120, 0), inches(140, 0)), None, "no wall on that level");
}

#[test]
fn translating_a_wall_drags_both_neighbours() {
    let mut model = BuildingModel::new(starter());
    model.walls.push(placed_wall("a", inches(0, 0), inches(120, 0)));
    model.walls.push(placed_wall("b", inches(0, 0), inches(0, 96)));
    model.walls.push(placed_wall("c", inches(120, 0), inches(120, 96)));
    let moved = model.translate_wall(&ElementId::new("a".to_owned()), Length::zero(), Length::from_whole_inches(24));
    let ids: Vec<&str> = moved.iter().map(|id| id.as_str()).collect();
    assert_eq!(ids, vec!["a", "b", "c"]);
    assert_eq!(model.walls[1].start, inches(0, 24));
    assert_eq!(model.walls[1].length, Length::from_whole_inches(72));
    assert_eq!(model.walls[2].start, inches(120, 24));
}

#[test]
fn applying_driving_dimensions_reports_no_change_without_dimensions() {
    let mut model = BuildingModel::demo_two_bedroom(starter());
    assert!(!model.apply_driving_dimensions());
}

#[test]
fn starter_library_is_sorted_by_id() {
    let mut library = starter();
    library.systems.reverse();
    let (materials, systems) = BuildingModel::starter_library(library);
    assert_eq!(materials.len(), 1);
    assert_eq!(systems[0].id.as_str(), "system-wall-exterior-1");
    assert_eq!(systems[1].id.as_str(), "system-wall-interior-1");
}
