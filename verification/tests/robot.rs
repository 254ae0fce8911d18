use rand::rngs::StdRng;
use rand::SeedableRng;
use resource_sim::collections::PositionSet;
use resource_sim::display::remaining_resource_units;
use resource_sim::map::TileMap;
use resource_sim::model::{Base, Message, Position, Resource, ResourceKind, Robot, RobotType};
use resource_sim::robot::{
    collector_step, deliver_to_base, discover_around, harvest_current_tile, scout_step,
};

const RNG_SEED: u64 = 42;

#[test]
fn discover_around_reports_each_discovery_once() {
    let mut map = TileMap::new(3, 3);
    map.tiles[0][0].resource = Some(Resource {
        kind: ResourceKind::Energy,
        quantity: 10,
    });
    map.tiles[2][2].obstacle = true;
    let mut robot = Robot::new(1, RobotType::Scout, Position { x: 1, y: 1 });

    let mut messages = discover_around(&mut robot, &map);
    messages.extend(discover_around(&mut robot, &map));

    assert_eq!(
        messages.len(),
        2,
        "one resource + one obstacle, each reported once"
    );
}

#[test]
fn scout_step_moves_to_a_walkable_tile() {
    let map = TileMap::new(5, 5);
    let start = Position { x: 2, y: 2 };
    let mut robot = Robot::new(1, RobotType::Scout, start);
    let mut rng = StdRng::seed_from_u64(RNG_SEED);

    scout_step(&mut robot, &map, &PositionSet::new(), &mut rng);

    assert_ne!(robot.position, start, "an unblocked scout must move");
    assert!(map.is_walkable(&robot.position));
}

#[test]
fn collector_harvests_the_known_resource_under_it() {
    let mut map = TileMap::new(3, 3);
    let position = Position { x: 1, y: 1 };
    map.tiles[1][1].resource = Some(Resource {
        kind: ResourceKind::Crystal,
        quantity: 5,
    });
    let mut base = Base::new(Position { x: 0, y: 0 });
    base.known_resources.insert(position, ResourceKind::Crystal);
    let mut robot = Robot::new(1, RobotType::Collector, position);
    let mut rng = StdRng::seed_from_u64(RNG_SEED);

    let messages = collector_step(&mut robot, &mut map, &base, &PositionSet::new(), &mut rng);

    assert_eq!(robot.carrying, Some(ResourceKind::Crystal));
    assert_eq!(
        map.tiles[1][1].resource.as_ref().map(|r| r.quantity),
        Some(4),
        "harvesting must consume exactly one unit"
    );
    assert!(matches!(
        messages.as_slice(),
        [Message::ResourcePicked { remaining: 4, .. }]
    ));
}

#[test]
fn collector_deposits_its_load_at_the_base() {
    let mut map = TileMap::new(3, 3);
    let base_position = Position { x: 1, y: 1 };
    let base = Base::new(base_position);
    let mut robot = Robot::new(1, RobotType::Collector, base_position);
    robot.carrying = Some(ResourceKind::Energy);
    let mut rng = StdRng::seed_from_u64(RNG_SEED);

    let messages = collector_step(&mut robot, &mut map, &base, &PositionSet::new(), &mut rng);

    assert_eq!(robot.carrying, None);
    assert!(matches!(
        messages.as_slice(),
        [Message::ResourceDeposited {
            kind: ResourceKind::Energy
        }]
    ));
}

#[test]
fn collector_reports_stale_knowledge_when_the_tile_is_empty() {
    let mut map = TileMap::new(3, 3);
    let position = Position { x: 1, y: 1 };
    let mut base = Base::new(Position { x: 0, y: 0 });
    base.known_resources.insert(position, ResourceKind::Energy);
    let mut robot = Robot::new(1, RobotType::Collector, position);
    let mut rng = StdRng::seed_from_u64(RNG_SEED);

    let messages = collector_step(&mut robot, &mut map, &base, &PositionSet::new(), &mut rng);

    assert_eq!(robot.carrying, None);
    assert!(
        matches!(
            messages.first(),
            Some(Message::ResourcePicked { remaining: 0, .. })
        ),
        "an empty tile still marked as known must be reported as depleted"
    );
}

#[test]
fn discover_around_reports_in_row_order() {
    let mut map = TileMap::new(4, 4);
    map.tiles[0][1].obstacle = true;
    map.tiles[1][0].resource = Some(Resource {
        kind: ResourceKind::Crystal,
        quantity: 60,
    });
    map.tiles[2][2].obstacle = true;
    let mut robot = Robot::new(2, RobotType::Scout, Position { x: 1, y: 1 });

    let messages = discover_around(&mut robot, &map);

    assert_eq!(
        messages,
        vec![
            Message::ObstacleDiscovered {
                position: Position { x: 1, y: 0 }
            },
            Message::ResourceDiscovered {
                position: Position { x: 0, y: 1 },
                kind: ResourceKind::Crystal,
                quantity: 60
            },
            Message::ObstacleDiscovered {
                position: Position { x: 2, y: 2 }
            },
        ]
    );
    assert!(robot.local_obstacles.contains(&Position { x: 2, y: 2 }));
    assert!(robot.local_resources.contains(&Position { x: 0, y: 1 }));
}

#[test]
fn discover_around_skips_cells_off_the_map() {
    let mut map = TileMap::new(2, 2);
    map.tiles[1][1].obstacle = true;
    let mut robot = Robot::new(3, RobotType::Scout, Position { x: 0, y: 0 });

    let messages = discover_around(&mut robot, &map);

    assert_eq!(messages.len(), 1);
    assert_eq!(robot.local_obstacles.len(), 1);
}

#[test]
fn harvesting_the_last_unit_empties_the_tile() {
    let mut map = TileMap::new(2, 2);
    let position = Position { x: 0, y: 1 };
    map.tiles[1][0].resource = Some(Resource {
        kind: ResourceKind::Energy,
        quantity: 1,
    });
    let base = Base::new(Position { x: 1, y: 1 });
    let mut robot = Robot::new(9, RobotType::Collector, position);
    robot.target = Some(position);

    let message = harvest_current_tile(&mut robot, &mut map, &base);

    assert_eq!(
        message,
        Some(Message::ResourcePicked {
            robot_id: 9,
            position,
            kind: ResourceKind::Energy,
            remaining: 0
        })
    );
    assert!(map.tiles[1][0].resource.is_none());
    assert_eq!(robot.carrying, Some(ResourceKind::Energy));
    assert_eq!(robot.target, None);
}

#[test]
fn a_loaded_collector_away_from_the_base_heads_home() {
    let map = TileMap::new(5, 1);
    let base = Base::new(Position { x: 0, y: 0 });
    let mut robot = Robot::new(4, RobotType::Collector, Position { x: 3, y: 0 });
    let mut rng = StdRng::seed_from_u64(RNG_SEED);

    let message = deliver_to_base(
        &mut robot,
        ResourceKind::Crystal,
        &map,
        &base,
        &PositionSet::new(),
        &mut rng,
    );

    assert_eq!(message, None);
    assert_eq!(robot.position, Position { x: 2, y: 0 });
}

#[test]
fn a_collector_forgets_an_aim_the_base_no_longer_knows() {
    let mut map = TileMap::new(5, 1);
    map.tiles[0][4].resource = Some(Resource {
        kind: ResourceKind::Energy,
        quantity: 8,
    });
    let mut base = Base::new(Position { x: 0, y: 0 });
    base.known_resources.insert(Position { x: 4, y: 0 }, ResourceKind::Energy);
    let mut robot = Robot::new(4, RobotType::Collector, Position { x: 2, y: 0 });
    robot.target = Some(Position { x: 0, y: 0 });
    let mut rng = StdRng::seed_from_u64(RNG_SEED);

    let messages = collector_step(&mut robot, &mut map, &base, &PositionSet::new(), &mut rng);

    assert!(messages.is_empty());
    assert_eq!(robot.target, Some(Position { x: 4, y: 0 }));
    assert_eq!(robot.position, Position { x: 3, y: 0 });
}

#[test]
fn harvesting_takes_exactly_one_unit_off_the_map() {
    let mut map = TileMap::new(4, 3);
    let position = Position { x: 2, y: 1 };
    map.tiles[1][2].resource = Some(Resource {
        kind: ResourceKind::Energy,
        quantity: 7,
    });
    map.tiles[0][0].resource = Some(Resource {
        kind: ResourceKind::Crystal,
        quantity: 3,
    });
    let mut base = Base::new(Position { x: 0, y: 2 });
    base.known_resources.insert(position, ResourceKind::Energy);
    let mut robot = Robot::new(2, RobotType::Collector, position);
    let mut rng = StdRng::seed_from_u64(RNG_SEED);

    assert_eq!(remaining_resource_units(&map), 10);
    collector_step(&mut robot, &mut map, &base, &PositionSet::new(), &mut rng);

    assert_eq!(remaining_resource_units(&map), 9);
    assert_eq!(robot.position, position, "a harvesting collector stays on its tile");
}
