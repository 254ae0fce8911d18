use noise::{NoiseFn, Perlin};
use rand::rngs::StdRng;
use rand::{RngExt, SeedableRng};
use resource_sim::config::{
    COLLECTOR_COUNT, EVENT_LOG_LINES, MAP_HEIGHT, MAP_WIDTH, RESOURCE_MAX_QUANTITY,
    RESOURCE_MIN_QUANTITY, ROBOT_COUNT, SCOUT_COUNT,
};
use resource_sim::map::TileMap;
use resource_sim::model::{Message, Position, Resource, ResourceKind, RobotType};
use resource_sim::world::World;

const RNG_SEED: u64 = 42;
const OBSTACLE_THRESHOLD: f64 = 0.2;
const OBSTACLE_NOISE_SCALE: f64 = 0.15;
const RESOURCE_PROBABILITY: f64 = 0.10;

/// The map the simulation generates from `rng`: Perlin obstacles, then random deposits.
fn generated_map(rng: &mut StdRng) -> TileMap {
    let mut map = TileMap::new(MAP_WIDTH, MAP_HEIGHT);
    let perlin = Perlin::new(rng.random());
    let mask: Vec<Vec<bool>> = (0..MAP_HEIGHT)
        .map(|y| {
            (0..MAP_WIDTH)
                .map(|x| {
                    let nx = x as f64 * OBSTACLE_NOISE_SCALE;
                    let ny = y as f64 * OBSTACLE_NOISE_SCALE;
                    perlin.get([nx, ny]) > OBSTACLE_THRESHOLD
                })
                .collect()
        })
        .collect();
    map.add_obstacles(&mask);
    for (x, y) in map.free_cells() {
        if rng.random_bool(RESOURCE_PROBABILITY) {
            let kind = if rng.random_bool(0.5) {
                ResourceKind::Energy
            } else {
                ResourceKind::Crystal
            };
            let quantity = rng.random_range(RESOURCE_MIN_QUANTITY..=RESOURCE_MAX_QUANTITY);
            map.place_resource(x, y, Resource { kind, quantity });
        }
    }
    map
}

fn test_world() -> World {
    World::with_map(generated_map(&mut StdRng::seed_from_u64(RNG_SEED)))
}

#[test]
fn new_spawns_the_expected_robot_fleet() {
    let world = test_world();

    assert_eq!(world.robots.len(), ROBOT_COUNT);
    let scouts = world
        .robots
        .iter()
        .filter(|robot| robot.robot_type == RobotType::Scout)
        .count();
    let collectors = world
        .robots
        .iter()
        .filter(|robot| robot.robot_type == RobotType::Collector)
        .count();
    assert_eq!(scouts, SCOUT_COUNT);
    assert_eq!(collectors, COLLECTOR_COUNT);
}

#[test]
fn robots_have_unique_ids_and_start_at_the_base() {
    let world = test_world();

    let mut ids: Vec<u32> = world.robots.iter().map(|robot| robot.id).collect();
    ids.sort_unstable();
    ids.dedup();
    assert_eq!(ids.len(), ROBOT_COUNT, "robot ids must be unique");
    assert!(
        world
            .robots
            .iter()
            .all(|robot| robot.position == world.base.position),
        "every robot must start at the base"
    );
}

#[test]
fn base_tile_is_always_walkable_and_empty() {
    let world = test_world();
    let base_position = world.base.position;

    assert!(world.map.is_walkable(&base_position));
    let tile = &world.map.tiles[base_position.y as usize][base_position.x as usize];
    assert!(tile.resource.is_none());
}

#[test]
fn push_event_caps_the_history_length() {
    let mut world = test_world();

    for i in 0..(EVENT_LOG_LINES + 3) {
        world.push_event(format!("event {i}"));
    }

    assert_eq!(world.events.len(), EVENT_LOG_LINES);
    assert_eq!(world.events.last().map(String::as_str), Some("event 8"));
}

#[test]
fn occupied_positions_excludes_the_asking_robot() {
    let mut world = test_world();
    world.robots[0].position = Position { x: 1, y: 1 };

    let occupied = world.occupied_positions(0);

    assert!(!occupied.contains(&Position { x: 1, y: 1 }));
    assert!(occupied.contains(&world.base.position));
}

#[test]
fn the_base_tile_is_cleared_even_when_blocked() {
    let mut map = TileMap::new(MAP_WIDTH, MAP_HEIGHT);
    let centre = Position {
        x: (MAP_WIDTH / 2) as i32,
        y: (MAP_HEIGHT / 2) as i32,
    };
    map.tiles[centre.y as usize][centre.x as usize].obstacle = true;
    map.tiles[centre.y as usize][centre.x as usize].resource = Some(Resource {
        kind: ResourceKind::Energy,
        quantity: 90,
    });
    map.tiles[0][0].obstacle = true;

    let world = World::with_map(map);

    assert_eq!(world.base.position, centre);
    assert!(world.map.is_walkable(&centre));
    assert!(world.map.tiles[centre.y as usize][centre.x as usize].resource.is_none());
    assert!(world.map.tiles[0][0].obstacle, "other tiles are left alone");
    assert_eq!(world.frame, 0);
    assert!(world.events.is_empty());
}

#[test]
fn receiving_messages_logs_them_as_events() {
    let mut world = World::with_map(TileMap::new(MAP_WIDTH, MAP_HEIGHT));

    let lines = world.receive_messages(vec![
        Message::ResourceDeposited {
            kind: ResourceKind::Energy,
        },
        Message::ObstacleDiscovered {
            position: Position { x: 3, y: 3 },
        },
    ]);

    assert_eq!(lines.len(), 2);
    assert_eq!(world.events, lines);
    assert_eq!(world.base.stored_energy, 1);
    assert_eq!(world.frame, 1);
}

#[test]
fn a_robot_tick_moves_only_that_robot() {
    let mut world = World::with_map(TileMap::new(MAP_WIDTH, MAP_HEIGHT));
    let mut rng = StdRng::seed_from_u64(RNG_SEED);
    let base = world.base.position;

    let messages = world.robot_tick(0, &mut rng);

    assert!(messages.is_empty(), "an empty map has nothing to report");
    assert!(world.robots[0].position != base, "the other robots leave free cells around the base");
    assert!(world.robots[1..].iter().all(|robot| robot.position == base));
}

#[test]
fn a_long_run_keeps_the_world_sound_and_moves_robots_safely() {
    let mut world = test_world();
    let mut rng = StdRng::seed_from_u64(RNG_SEED);

    for _ in 0..300 {
        let mut inbox = Vec::new();
        for index in 0..world.robots.len() {
            assert!(world.tick_is_safe(index), "every robot of a sound world may tick");
            let before = world.robots[index].position;
            let others: Vec<Position> = world
                .robots
                .iter()
                .enumerate()
                .filter(|(i, _)| *i != index)
                .map(|(_, robot)| robot.position)
                .collect();

            inbox.extend(world.robot_tick(index, &mut rng));

            let after = world.robots[index].position;
            if after != before {
                assert_eq!((after.x - before.x).abs() + (after.y - before.y).abs(), 1);
                assert!(world.map.is_walkable(&after));
                assert!(!others.contains(&after), "a robot never steps onto another one");
            }
        }
        assert!(world.can_receive(&inbox));
        world.receive_messages(inbox);
    }

    assert!(world.robots.iter().all(|robot| world.map.is_walkable(&robot.position)));
    assert!(world
        .map
        .tiles
        .iter()
        .flatten()
        .all(|tile| tile.resource.map_or(true, |resource| resource.quantity > 0)));
}

#[test]
fn push_event_keeps_only_the_most_recent_events_of_a_long_history() {
    let mut world = test_world();
    world.events = (0..9).map(|i| format!("old {i}")).collect();

    world.push_event("new".to_string());

    assert_eq!(world.events.len(), EVENT_LOG_LINES);
    let expected: Vec<String> = vec!["old 4", "old 5", "old 6", "old 7", "old 8", "new"]
        .into_iter()
        .map(String::from)
        .collect();
    assert_eq!(world.events, expected);
}

#[test]
fn a_loaded_collector_on_a_vanished_deposit_may_tick_and_heads_home() {
    let mut world = World::with_map(TileMap::new(MAP_WIDTH, MAP_HEIGHT));
    let spot = Position { x: 2, y: 2 };
    let collector = SCOUT_COUNT;
    world.robots[collector].position = spot;
    world.robots[collector].carrying = Some(ResourceKind::Crystal);
    world.map.tiles[2][2].resource = Some(Resource {
        kind: ResourceKind::Crystal,
        quantity: 0,
    });
    world.base.known_resources.insert(spot, ResourceKind::Crystal);
    let mut rng = StdRng::seed_from_u64(RNG_SEED);

    assert!(world.tick_is_safe(collector));
    let messages = world.robot_tick(collector, &mut rng);

    assert!(messages.is_empty());
    assert_eq!(world.robots[collector].carrying, Some(ResourceKind::Crystal));
    assert_eq!(world.robots[collector].position, Position { x: 2, y: 3 });
}
