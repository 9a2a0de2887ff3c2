use framer::element::ElementId;
use framer::error::ModelError;
use framer::standards::FramingDefaults;
use framer::units::{Length, Point2};
use framer::wall::{
    DimensionAnchor, DimensionConstraint, DimensionDirection, DimensionKind, Opening, OpeningKind, RoomUsage, Wall,
    WallJoin, WallJoinKind,
};

fn inches(n: i64) -> Length {
    Length::from_whole_inches(n)
}

fn wall_with_window(center: Length, width: Length) -> Wall {
    let code = FramingDefaults::irc_2021_starter();
    let mut wall = Wall::new("wall", "Wall", inches(144), &code);
    wall.openings.push(Opening::window("window", "Window", center, width, inches(36), inches(36)));
    wall
}

fn driving(id: &str, start: DimensionAnchor, end: DimensionAnchor, value: Length) -> DimensionConstraint {
    DimensionConstraint::new(id, id, DimensionKind::Driving, start, end, DimensionDirection::Forward, Some(value))
}

fn window_left() -> DimensionAnchor {
    DimensionAnchor::OpeningLeft { opening: ElementId::new("window".to_owned()) }
}

#[test]
fn opening_edges_follow_center_and_width() {
    let opening = Opening::window("w", "W", inches(48), inches(36), inches(36), inches(24));
    assert_eq!(opening.left(), inches(30));
    assert_eq!(opening.right(), inches(66));
    assert_eq!(opening.top(), inches(60));
    assert!(opening.has_sill());
    let door = Opening::door("d", "D", inches(48), inches(36), inches(80)).with_kind(OpeningKind::GarageDoor);
    assert!(!door.has_sill());
    assert_eq!(door.kind, OpeningKind::GarageDoor);
}

#[test]
fn placement_length_follows_axis_aligned_placement() {
    let code = FramingDefaults::irc_2021_starter();
    let wall = Wall::new("w", "W", inches(10), &code).with_placement(
        "level-1",
        Point2::new(inches(0), inches(120)),
        Point2::new(inches(0), inches(0)),
    );
    assert_eq!(wall.length, inches(120));
    assert_eq!(wall.placement_length(), Some(inches(120)));
    assert_eq!(wall.point_at_local_x(inches(20)), Point2::new(inches(0), inches(100)));
    assert_eq!(wall.local_x_for_point(Point2::new(inches(0), inches(100))), Some(inches(20)));
    assert_eq!(wall.local_x_for_point(Point2::new(inches(1), inches(100))), None);
    assert!(wall.point_on_segment(Point2::new(inches(0), inches(60))));
    assert!(wall.point_on_interior(Point2::new(inches(0), inches(60))));
    assert!(!wall.point_on_interior(Point2::new(inches(0), inches(0))));
    assert!(!wall.point_on_segment(Point2::new(inches(0), inches(121))));
}

#[test]
fn diagonal_placement_keeps_length_and_fails_validation() {
    let code = FramingDefaults::irc_2021_starter();
    let wall = Wall::new("w", "W", inches(10), &code).with_placement(
        "level-1",
        Point2::new(inches(0), inches(0)),
        Point2::new(inches(5), inches(5)),
    );
    assert_eq!(wall.length, inches(10));
    assert!(matches!(wall.validate(), Err(ModelError::InvalidWallPlacement { .. })));
}

#[test]
fn overlapping_openings_are_rejected() {
    let mut wall = wall_with_window(inches(48), inches(36));
    wall.openings.push(Opening::window("window-2", "Window 2", inches(70), inches(20), inches(36), inches(36)));
    assert!(matches!(wall.validate(), Err(ModelError::OverlappingOpenings { .. })));
    wall.openings[1].center = inches(90);
    assert!(wall.validate().is_ok());
}

#[test]
fn driving_dimension_moves_opening_anchor() {
    let mut wall = wall_with_window(inches(48), inches(36));
    wall.dimensions.push(driving("dim", DimensionAnchor::WallStart, window_left(), inches(12)));
    assert!(!wall.is_driving_dimension_satisfied(&wall.dimensions[0]));
    assert_eq!(wall.driving_dimension_offsets(&wall.dimensions[0]), Some((inches(12), inches(30))));

    assert!(wall.apply_driving_dimensions());
    assert_eq!(wall.openings[0].center, inches(30));
    assert_eq!(wall.openings[0].width, inches(36));
    assert!(wall.is_driving_dimension_satisfied(&wall.dimensions[0]));
    assert!(wall.validate().is_ok());
    assert!(!wall.apply_driving_dimensions());
}

#[test]
fn redundant_driving_dimension_overconstrains() {
    let mut wall = wall_with_window(inches(48), inches(36));
    wall.dimensions.push(driving("dim-a", DimensionAnchor::WallStart, window_left(), inches(30)));
    let repeat = driving("dim-b", DimensionAnchor::WallStart, window_left(), inches(30));
    assert!(wall.would_overconstrain_driving_dimension(&repeat));
    let other = driving(
        "dim-c",
        DimensionAnchor::WallStart,
        DimensionAnchor::OpeningRight { opening: ElementId::new("window".to_owned()) },
        inches(66),
    );
    assert!(!wall.would_overconstrain_driving_dimension(&other));
    wall.dimensions.push(repeat);
    assert!(matches!(wall.validate(), Err(ModelError::OverconstrainedDimension { .. })));
}

#[test]
fn apply_driving_dimension_uses_the_edited_value() {
    let mut wall = wall_with_window(inches(48), inches(36));
    wall.dimensions.push(driving("dim", DimensionAnchor::WallStart, window_left(), inches(30)));
    let edited = driving("dim", DimensionAnchor::WallStart, window_left(), inches(40));
    assert!(wall.apply_driving_dimension(&edited));
    assert_eq!(wall.openings[0].center, inches(58));
    assert_eq!(wall.dimensions[0].value, Some(inches(30)));
}

#[test]
fn removing_an_opening_drops_its_dimensions() {
    let mut wall = wall_with_window(inches(48), inches(36));
    wall.dimensions.push(driving("dim", DimensionAnchor::WallStart, window_left(), inches(30)));
    assert!(!wall.remove_opening(&ElementId::new("missing".to_owned())));
    assert_eq!(wall.dimensions.len(), 1);
    assert!(wall.remove_opening(&ElementId::new("window".to_owned())));
    assert!(wall.openings.is_empty());
    assert!(wall.dimensions.is_empty());
}

#[test]
fn join_rejects_same_wall() {
    let join = WallJoin::new("join", "Join", WallJoinKind::Tee, "wall-a", "wall-a", Point2::new(inches(0), inches(0)));
    assert!(matches!(join.validate(), Err(ModelError::JoinReferencesSameWall { .. })));
    let corner = WallJoin::corner("join", "Join", "wall-a", "wall-b", Point2::new(inches(0), inches(0)));
    assert_eq!(corner.kind, WallJoinKind::Corner);
    assert!(corner.validate().is_ok());
}

#[test]
fn room_usage_labels() {
    assert_eq!(RoomUsage::Bedroom.label(), "Bedroom");
    assert_eq!(RoomUsage::Unspecified.label(), "Unspecified");
}
