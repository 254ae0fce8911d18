use resource_sim::display::{
    count_robots, fits_side_by_side, labelled_number, recent_events, remaining_resource_units,
    tile_symbol,
};
use resource_sim::map::TileMap;
use resource_sim::model::{Position, Resource, ResourceKind, Robot, RobotType};

#[test]
fn count_robots_filters_by_type() {
    let position = Position { x: 0, y: 0 };
    let robots = vec![
        Robot::new(1, RobotType::Scout, position),
        Robot::new(2, RobotType::Scout, position),
        Robot::new(3, RobotType::Collector, position),
    ];

    assert_eq!(count_robots(&robots, RobotType::Scout), 2);
    assert_eq!(count_robots(&robots, RobotType::Collector), 1);
}

#[test]
fn remaining_resource_units_sums_every_tile() {
    let mut map = TileMap::new(3, 3);
    map.tiles[0][0].resource = Some(Resource {
        kind: ResourceKind::Energy,
        quantity: 10,
    });
    map.tiles[2][1].resource = Some(Resource {
        kind: ResourceKind::Crystal,
        quantity: 5,
    });

    assert_eq!(remaining_resource_units(&map), 15);
}

#[test]
fn tile_symbols_follow_the_drawing_priority() {
    let mut map = TileMap::new(4, 1);
    map.tiles[0][1].obstacle = true;
    map.tiles[0][2].resource = Some(Resource {
        kind: ResourceKind::Crystal,
        quantity: 3,
    });
    map.tiles[0][3].resource = Some(Resource {
        kind: ResourceKind::Energy,
        quantity: 3,
    });
    let base_position = Position { x: 0, y: 0 };
    let robots = vec![
        Robot::new(1, RobotType::Collector, Position { x: 3, y: 0 }),
        Robot::new(2, RobotType::Scout, Position { x: 3, y: 0 }),
    ];

    let symbols: String = (0..4)
        .map(|x| tile_symbol(&map, base_position, &robots, Position { x, y: 0 }))
        .collect();

    assert_eq!(symbols, "#OCo");
    assert_eq!(
        tile_symbol(&map, base_position, &[], Position { x: 3, y: 0 }),
        'E'
    );
    let empty = TileMap::new(1, 1);
    assert_eq!(
        tile_symbol(&empty, Position { x: 5, y: 5 }, &[], Position { x: 0, y: 0 }),
        '.'
    );
}

#[test]
fn layout_goes_side_by_side_only_when_both_panels_fit() {
    assert!(fits_side_by_side(74, 22));
    assert!(!fits_side_by_side(73, 22));
    assert!(!fits_side_by_side(200, 21));
}

#[test]
fn recent_events_come_newest_first() {
    let events: Vec<String> = (0..9).map(|i| format!("e{i}")).collect();

    let recent = recent_events(&events);

    assert_eq!(recent, vec!["e8", "e7", "e6", "e5", "e4", "e3"]);
    assert_eq!(recent_events(&events[..2]), vec!["e1", "e0"]);
}

#[test]
fn labelled_numbers_are_written_in_decimal() {
    assert_eq!(labelled_number("Frame: ", 1207, "  "), "Frame: 1207  ");
    assert_eq!(labelled_number("Robots: ", 0, ""), "Robots: 0");
}

#[test]
fn robots_and_the_base_are_shown_even_off_the_map() {
    let map = TileMap::new(2, 2);
    let robots = vec![Robot::new(1, RobotType::Collector, Position { x: -1, y: 5 })];
    let base_position = Position { x: 7, y: 7 };

    assert_eq!(tile_symbol(&map, base_position, &robots, Position { x: -1, y: 5 }), 'o');
    assert_eq!(tile_symbol(&map, base_position, &robots, base_position), '#');
    assert_eq!(tile_symbol(&map, base_position, &robots, Position { x: 1, y: 1 }), '.');
}
