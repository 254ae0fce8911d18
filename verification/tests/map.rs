use resource_sim::map::TileMap;
use resource_sim::model::{Position, Resource, ResourceKind};

const TEST_MAP_WIDTH: usize = 8;
const TEST_MAP_HEIGHT: usize = 6;

fn test_map() -> TileMap {
    TileMap::new(TEST_MAP_WIDTH, TEST_MAP_HEIGHT)
}

#[test]
fn new_creates_a_grid_of_free_tiles() {
    let map = test_map();

    assert_eq!(map.width, TEST_MAP_WIDTH);
    assert_eq!(map.height, TEST_MAP_HEIGHT);
    assert_eq!(map.tiles.len(), TEST_MAP_HEIGHT);
    assert!(map.tiles.iter().all(|row| row.len() == TEST_MAP_WIDTH));
    assert!(
        map.tiles
            .iter()
            .flatten()
            .all(|tile| !tile.obstacle && tile.resource.is_none()),
        "a fresh map must contain neither obstacles nor resources"
    );
}

#[test]
fn in_bounds_rejects_positions_outside_the_grid() {
    let map = test_map();

    assert!(map.in_bounds(&Position { x: 0, y: 0 }));
    assert!(!map.in_bounds(&Position { x: -1, y: 0 }));
    assert!(!map.in_bounds(&Position { x: 0, y: -1 }));
    assert!(!map.in_bounds(&Position {
        x: TEST_MAP_WIDTH as i32,
        y: 0
    }));
    assert!(!map.in_bounds(&Position {
        x: 0,
        y: TEST_MAP_HEIGHT as i32
    }));
}

#[test]
fn is_walkable_rejects_obstacles() {
    let mut map = test_map();
    map.tiles[1][2].obstacle = true;

    assert!(map.is_walkable(&Position { x: 2, y: 0 }));
    assert!(!map.is_walkable(&Position { x: 2, y: 1 }));
}

#[test]
fn in_bounds_accepts_the_far_corner_only_inside() {
    let map = test_map();

    assert!(map.in_bounds(&Position { x: 7, y: 5 }));
    assert!(!map.in_bounds(&Position { x: 8, y: 5 }));
    assert!(!map.in_bounds(&Position { x: i32::MIN, y: i32::MAX }));
    assert!(!map.is_walkable(&Position { x: -3, y: 2 }));
}

#[test]
fn free_cells_lists_unblocked_cells_row_by_row() {
    let mut map = TileMap::new(3, 2);
    map.tiles[0][1].obstacle = true;
    map.tiles[1][0].obstacle = true;

    assert_eq!(map.free_cells(), vec![(0, 0), (2, 0), (1, 1), (2, 1)]);
}

#[test]
fn add_obstacles_only_adds_blocked_cells() {
    let mut map = TileMap::new(2, 2);
    map.tiles[0][0].obstacle = true;
    map.tiles[1][1].resource = Some(Resource {
        kind: ResourceKind::Energy,
        quantity: 3,
    });
    let mask = vec![vec![false, true], vec![false, false]];

    map.add_obstacles(&mask);

    assert!(map.tiles[0][0].obstacle, "an obstacle is never removed");
    assert!(map.tiles[0][1].obstacle);
    assert!(!map.tiles[1][0].obstacle);
    assert!(!map.tiles[1][1].obstacle);
    assert_eq!(map.tiles[1][1].resource.map(|r| r.quantity), Some(3));
}

#[test]
fn place_resource_sets_one_tile() {
    let mut map = TileMap::new(3, 3);
    let resource = Resource {
        kind: ResourceKind::Crystal,
        quantity: 77,
    };

    map.place_resource(2, 1, resource);

    assert_eq!(map.tiles[1][2].resource, Some(resource));
    let others = map
        .tiles
        .iter()
        .flatten()
        .filter(|tile| tile.resource.is_some())
        .count();
    assert_eq!(others, 1);
}
