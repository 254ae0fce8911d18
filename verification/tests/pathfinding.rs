use rand::rngs::StdRng;
use rand::SeedableRng;
use resource_sim::collections::{PositionMap, PositionSet};
use resource_sim::map::TileMap;
use resource_sim::model::{Position, ResourceKind};
use resource_sim::pathfinding::{
    bfs_next_step, closest_reachable_resource, random_walk, step_toward,
};

const TEST_MAP_WIDTH: usize = 5;
const TEST_MAP_HEIGHT: usize = 5;
const RNG_SEED: u64 = 42;

fn test_map() -> TileMap {
    TileMap::new(TEST_MAP_WIDTH, TEST_MAP_HEIGHT)
}

#[test]
fn bfs_finds_first_step_on_open_map() {
    let map = test_map();
    let start = Position { x: 0, y: 0 };
    let target = Position { x: 2, y: 0 };
    let occupied = PositionSet::new();

    let next = bfs_next_step(&start, &target, &map, &occupied);

    assert_eq!(next, Some(Position { x: 1, y: 0 }));
}

#[test]
fn bfs_returns_none_when_target_is_walled_off() {
    let mut map = test_map();
    for y in 0..map.height {
        map.tiles[y][1].obstacle = true;
    }
    let start = Position { x: 0, y: 2 };
    let target = Position { x: 2, y: 2 };
    let occupied = PositionSet::new();

    assert_eq!(bfs_next_step(&start, &target, &map, &occupied), None);
}

#[test]
fn bfs_routes_around_a_partial_wall() {
    let mut map = test_map();
    map.tiles[0][1].obstacle = true;
    map.tiles[1][1].obstacle = true;
    let start = Position { x: 0, y: 0 };
    let target = Position { x: 2, y: 0 };
    let occupied = PositionSet::new();

    let next = bfs_next_step(&start, &target, &map, &occupied);

    assert_eq!(
        next,
        Some(Position { x: 0, y: 1 }),
        "the only way around the wall starts by going down"
    );
}

#[test]
fn bfs_treats_occupied_tiles_as_blocked() {
    let map = test_map();
    let start = Position { x: 0, y: 0 };
    let target = Position { x: 2, y: 0 };
    let occupied = PositionSet::from_vec(vec![Position { x: 1, y: 0 }]);

    let next = bfs_next_step(&start, &target, &map, &occupied);

    assert_ne!(
        next,
        Some(Position { x: 1, y: 0 }),
        "an occupied tile must never be the next step"
    );
}

#[test]
fn step_toward_moves_one_tile_and_reports_progress() {
    let map = test_map();
    let mut pos = Position { x: 0, y: 0 };
    let target = Position { x: 3, y: 0 };
    let occupied = PositionSet::new();
    let mut rng = StdRng::seed_from_u64(RNG_SEED);

    let moved = step_toward(&mut pos, &target, &map, &occupied, &mut rng);

    assert!(moved);
    assert_eq!(pos, Position { x: 1, y: 0 });
}

#[test]
fn random_walk_only_moves_to_walkable_free_tiles() {
    let mut map = test_map();
    map.tiles[0][1].obstacle = true;
    let occupied = PositionSet::from_vec(vec![Position { x: 0, y: 1 }]);
    let mut rng = StdRng::seed_from_u64(RNG_SEED);

    // From the corner, both exits are blocked: the robot must stay put.
    let mut pos = Position { x: 0, y: 0 };
    random_walk(&mut pos, &map, &occupied, &mut rng);

    assert_eq!(pos, Position { x: 0, y: 0 });
}

#[test]
fn random_walk_stays_inside_the_map() {
    let map = test_map();
    let occupied = PositionSet::new();
    let mut rng = StdRng::seed_from_u64(RNG_SEED);
    let mut pos = Position { x: 0, y: 0 };

    for _ in 0..100 {
        random_walk(&mut pos, &map, &occupied, &mut rng);
        assert!(map.is_walkable(&pos), "robot left the map at {pos:?}");
    }
}

#[test]
fn closest_reachable_resource_prefers_the_nearest_target() {
    let map = test_map();
    let occupied = PositionSet::new();
    let known_resources = PositionMap::from_vec(vec![
        (Position { x: 4, y: 4 }, ResourceKind::Crystal),
        (Position { x: 1, y: 0 }, ResourceKind::Energy),
    ]);

    let target =
        closest_reachable_resource(Position { x: 0, y: 0 }, &known_resources, &map, &occupied);

    assert_eq!(target, Some(Position { x: 1, y: 0 }));
}

#[test]
fn closest_reachable_resource_skips_unreachable_targets() {
    let mut map = test_map();
    for y in 0..map.height {
        map.tiles[y][3].obstacle = true;
    }
    let occupied = PositionSet::new();
    let known_resources = PositionMap::from_vec(vec![(Position { x: 4, y: 0 }, ResourceKind::Energy)]);

    let target =
        closest_reachable_resource(Position { x: 0, y: 0 }, &known_resources, &map, &occupied);

    assert_eq!(target, None, "a walled-off resource must be ignored");
}

#[test]
fn bfs_has_no_step_when_already_on_the_target() {
    let map = test_map();
    let here = Position { x: 2, y: 2 };

    assert_eq!(bfs_next_step(&here, &here, &map, &PositionSet::new()), None);
}

#[test]
fn bfs_refuses_an_occupied_target_next_door() {
    let map = test_map();
    let start = Position { x: 2, y: 2 };
    let target = Position { x: 3, y: 2 };
    let occupied = PositionSet::from_vec(vec![target]);

    assert_eq!(bfs_next_step(&start, &target, &map, &occupied), None);
}

#[test]
fn bfs_approaches_an_occupied_target_further_away() {
    let map = test_map();
    let start = Position { x: 0, y: 2 };
    let target = Position { x: 2, y: 2 };
    let occupied = PositionSet::from_vec(vec![target]);

    assert_eq!(
        bfs_next_step(&start, &target, &map, &occupied),
        Some(Position { x: 1, y: 2 })
    );
}

#[test]
fn bfs_follows_the_only_corridor() {
    // A 5x5 map whose free cells form a winding corridor from (0,0) to (4,4).
    let mut map = test_map();
    for x in 0..4 {
        map.tiles[1][x].obstacle = true;
        map.tiles[3][x + 1].obstacle = true;
    }
    let start = Position { x: 0, y: 0 };
    let target = Position { x: 0, y: 4 };
    let occupied = PositionSet::new();

    assert_eq!(
        bfs_next_step(&start, &target, &map, &occupied),
        Some(Position { x: 1, y: 0 })
    );
    assert_eq!(
        bfs_next_step(&Position { x: 4, y: 2 }, &target, &map, &occupied),
        Some(Position { x: 3, y: 2 })
    );
}

#[test]
fn bfs_ignores_a_start_off_the_map() {
    let map = test_map();
    let start = Position { x: -1, y: 0 };
    let target = Position { x: 1, y: 0 };

    assert_eq!(
        bfs_next_step(&start, &target, &map, &PositionSet::new()),
        Some(Position { x: 0, y: 0 })
    );
    let far = Position { x: i32::MAX, y: i32::MIN };
    assert_eq!(bfs_next_step(&far, &target, &map, &PositionSet::new()), None);
}

#[test]
fn step_toward_walks_randomly_when_blocked() {
    let mut map = test_map();
    for y in 0..map.height {
        map.tiles[y][2].obstacle = true;
    }
    let mut pos = Position { x: 0, y: 2 };
    let target = Position { x: 4, y: 2 };
    let mut rng = StdRng::seed_from_u64(RNG_SEED);

    let moved = step_toward(&mut pos, &target, &map, &PositionSet::new(), &mut rng);

    assert!(!moved);
    let dx = (pos.x - 0).abs();
    let dy = (pos.y - 2).abs();
    assert_eq!(dx + dy, 1, "a random step moves to a neighbouring cell");
    assert!(map.is_walkable(&pos));
}

#[test]
fn random_walk_draws_different_directions() {
    let map = test_map();
    let occupied = PositionSet::new();
    let mut rng = StdRng::seed_from_u64(RNG_SEED);
    let mut seen = Vec::new();

    for _ in 0..40 {
        let mut pos = Position { x: 2, y: 2 };
        random_walk(&mut pos, &map, &occupied, &mut rng);
        if !seen.contains(&pos) {
            seen.push(pos);
        }
    }

    assert_eq!(seen.len(), 4, "from the middle of an open map every direction comes up");
}

#[test]
fn closest_reachable_resource_keeps_the_first_of_equally_near_targets() {
    let map = test_map();
    let occupied = PositionSet::new();
    let known_resources = PositionMap::from_vec(vec![
        (Position { x: 2, y: 1 }, ResourceKind::Crystal),
        (Position { x: 1, y: 2 }, ResourceKind::Energy),
        (Position { x: 0, y: 0 }, ResourceKind::Energy),
    ]);

    let target =
        closest_reachable_resource(Position { x: 2, y: 2 }, &known_resources, &map, &occupied);

    assert_eq!(target, Some(Position { x: 2, y: 1 }));
}

#[test]
fn closest_reachable_resource_accepts_the_tile_under_the_robot() {
    let mut map = test_map();
    for y in 0..map.height {
        for x in 0..map.width {
            if (x, y) != (2, 2) {
                map.tiles[y][x].obstacle = true;
            }
        }
    }
    let known_resources = PositionMap::from_vec(vec![(Position { x: 2, y: 2 }, ResourceKind::Energy)]);

    let target = closest_reachable_resource(
        Position { x: 2, y: 2 },
        &known_resources,
        &map,
        &PositionSet::new(),
    );

    assert_eq!(target, Some(Position { x: 2, y: 2 }));
}

#[test]
fn bfs_prefers_the_first_direction_among_shortest_ways() {
    let map = test_map();
    let occupied = PositionSet::new();
    let start = Position { x: 2, y: 2 };

    let cases = [
        (Position { x: 3, y: 3 }, Position { x: 2, y: 3 }),
        (Position { x: 1, y: 1 }, Position { x: 2, y: 1 }),
        (Position { x: 3, y: 1 }, Position { x: 2, y: 1 }),
        (Position { x: 1, y: 3 }, Position { x: 2, y: 3 }),
        (Position { x: 0, y: 2 }, Position { x: 1, y: 2 }),
    ];
    for (target, expected) in cases {
        assert_eq!(
            bfs_next_step(&start, &target, &map, &occupied),
            Some(expected),
            "towards {target:?}"
        );
    }
}
