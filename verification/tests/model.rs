use resource_sim::model::{Base, Message, Position, ResourceKind, Robot, RobotType};

const ORIGIN: Position = Position { x: 0, y: 0 };

fn discovery_at(position: Position) -> Message {
    Message::ResourceDiscovered {
        position,
        kind: ResourceKind::Energy,
        quantity: 100,
    }
}

#[test]
fn resource_discovered_is_registered_once() {
    let mut base = Base::new(ORIGIN);
    let pos = Position { x: 3, y: 4 };

    let first_logs = base.process_incoming(vec![discovery_at(pos)]);
    let second_logs = base.process_incoming(vec![discovery_at(pos)]);

    assert_eq!(base.known_resources.len(), 1);
    assert_eq!(first_logs.len(), 1, "first discovery must be logged");
    assert!(second_logs.is_empty(), "duplicate must not be logged again");
}

#[test]
fn obstacle_discovered_is_registered_once() {
    let mut base = Base::new(ORIGIN);
    let pos = Position { x: 5, y: 2 };
    let obstacle = Message::ObstacleDiscovered { position: pos };

    let first_logs = base.process_incoming(vec![obstacle.clone()]);
    let second_logs = base.process_incoming(vec![obstacle]);

    assert_eq!(base.known_obstacles.len(), 1);
    assert_eq!(first_logs.len(), 1, "first discovery must be logged");
    assert!(second_logs.is_empty(), "duplicate must not be logged again");
}

#[test]
fn depleted_resource_is_deleted_from_known_resources() {
    let mut base = Base::new(ORIGIN);
    let pos = Position { x: 1, y: 1 };
    base.known_resources.insert(pos, ResourceKind::Crystal);

    let logs = base.process_incoming(vec![Message::ResourcePicked {
        robot_id: 1,
        position: pos,
        kind: ResourceKind::Crystal,
        remaining: 0,
    }]);

    assert!(
        !base.known_resources.contains_key(&pos),
        "a depleted resource must be deleted from the shared knowledge"
    );
    assert_eq!(logs.len(), 1);
    assert!(logs[0].starts_with("[depleted]"));
}

#[test]
fn picked_resource_with_units_left_stays_known() {
    let mut base = Base::new(ORIGIN);
    let pos = Position { x: 2, y: 3 };
    base.known_resources.insert(pos, ResourceKind::Energy);

    let logs = base.process_incoming(vec![Message::ResourcePicked {
        robot_id: 4,
        position: pos,
        kind: ResourceKind::Energy,
        remaining: 9,
    }]);

    assert!(
        base.known_resources.contains_key(&pos),
        "a partially consumed resource must stay known"
    );
    assert_eq!(logs.len(), 1);
    assert!(logs[0].starts_with("[pick]"));
}

#[test]
fn deposit_increments_stored_counts() {
    let mut base = Base::new(ORIGIN);

    base.process_incoming(vec![
        Message::ResourceDeposited {
            kind: ResourceKind::Energy,
        },
        Message::ResourceDeposited {
            kind: ResourceKind::Energy,
        },
        Message::ResourceDeposited {
            kind: ResourceKind::Crystal,
        },
    ]);

    assert_eq!(base.stored_energy, 2);
    assert_eq!(base.stored_crystals, 1);
}

#[test]
fn log_lines_have_their_exact_text() {
    let mut base = Base::new(ORIGIN);
    let logs = base.process_incoming(vec![
        Message::ResourceDiscovered {
            position: Position { x: -3, y: 12 },
            kind: ResourceKind::Crystal,
            quantity: 150,
        },
        Message::ObstacleDiscovered {
            position: Position { x: 0, y: 7 },
        },
        Message::ResourcePicked {
            robot_id: 4,
            position: Position { x: -3, y: 12 },
            kind: ResourceKind::Crystal,
            remaining: 149,
        },
        Message::ResourcePicked {
            robot_id: 5,
            position: Position { x: -3, y: 12 },
            kind: ResourceKind::Crystal,
            remaining: 0,
        },
        Message::ResourceDeposited {
            kind: ResourceKind::Crystal,
        },
    ]);

    assert_eq!(
        logs,
        vec![
            "[network] Crystal at (-3,12) — 150 units (new at base)".to_string(),
            "[network] obstacle at (0,7) (new at base)".to_string(),
            "[pick] robot #4 took 1 Crystal at (-3,12) — 149 left".to_string(),
            "[depleted] Crystal at (-3,12) — REMOVED".to_string(),
            "[deposit] Crystal → base (total: 1)".to_string(),
        ]
    );
}

#[test]
fn extreme_coordinates_are_written_in_full() {
    let mut base = Base::new(ORIGIN);
    let logs = base.process_incoming(vec![Message::ObstacleDiscovered {
        position: Position {
            x: i32::MIN,
            y: i32::MAX,
        },
    }]);

    assert_eq!(
        logs,
        vec!["[network] obstacle at (-2147483648,2147483647) (new at base)".to_string()]
    );
}

#[test]
fn a_late_discovery_of_a_depleted_deposit_is_known_again() {
    let mut base = Base::new(ORIGIN);
    let pos = Position { x: 6, y: 6 };

    base.process_incoming(vec![
        discovery_at(pos),
        Message::ResourcePicked {
            robot_id: 2,
            position: pos,
            kind: ResourceKind::Energy,
            remaining: 0,
        },
    ]);
    assert!(!base.known_resources.contains_key(&pos));

    let logs = base.process_incoming(vec![discovery_at(pos)]);
    assert_eq!(logs.len(), 1);
    assert_eq!(base.known_resources.get(&pos), Some(ResourceKind::Energy));
}

#[test]
fn a_new_robot_knows_nothing() {
    let robot = Robot::new(7, RobotType::Collector, Position { x: 2, y: 9 });

    assert_eq!(robot.id, 7);
    assert_eq!(robot.position, Position { x: 2, y: 9 });
    assert_eq!(robot.robot_type, RobotType::Collector);
    assert_eq!(robot.target, None);
    assert_eq!(robot.carrying, None);
    assert_eq!(robot.local_resources.len(), 0);
    assert_eq!(robot.local_obstacles.len(), 0);
}

#[test]
fn a_cloned_robot_and_base_keep_their_knowledge() {
    let mut robot = Robot::new(7, RobotType::Collector, Position { x: 2, y: 2 });
    robot.local_obstacles.insert(Position { x: 1, y: 2 });
    robot.local_resources.insert(Position { x: 3, y: 2 });
    let mut base = Base::new(ORIGIN);
    base.known_resources.insert(Position { x: 3, y: 2 }, ResourceKind::Crystal);
    base.known_obstacles.insert(Position { x: 1, y: 2 });

    let robot_copy = robot.clone();
    let base_copy = base.clone();

    assert_eq!(robot_copy.id, 7);
    assert!(robot_copy.local_obstacles.contains(&Position { x: 1, y: 2 }));
    assert!(robot_copy.local_resources.contains(&Position { x: 3, y: 2 }));
    assert_eq!(
        base_copy.known_resources.get(&Position { x: 3, y: 2 }),
        Some(ResourceKind::Crystal)
    );
    assert_eq!(base_copy.known_obstacles.len(), 1);
}
