//! What a robot does in one tick: scouts look around and wander, collectors harvest,
//! carry and deliver. Each step answers the messages the robot sends to the base.
use rand::rngs::StdRng;
use vstd::prelude::*;

use crate::collections::PositionSet;
use crate::grid::{chosen_first_step, fits_i32, no_first_step};
use crate::map::TileMap;
use crate::model::{Base, BaseState, Message, Position, Resource, ResourceKind, Robot, RobotState, Tile};
use crate::pathfinding::{
    closest_reachable_resource, lemma_walk_outcome, nearest_target, random_walk, safe_move, step_toward,
    walk_outcome,
};

verus! {

/// The `i`-th cell (0 to 8) of the 3 by 3 square centred on `center`, row by row, when its
/// coordinates can be represented.
pub open spec fn scan_cell(center: Position, i: int) -> Option<Position> {
    let x = center.x + (i % 3 - 1);
    let y = center.y + (i / 3 - 1);
    if fits_i32(x) && fits_i32(y) {
        Some(Position { x: x as i32, y: y as i32 })
    } else {
        None
    }
}

/// What a robot in state `r` learns, and reports, from the tile at `p`: an obstacle or a
/// deposit it did not know of yet.
pub open spec fn look_at(r: RobotState, m: TileMap, p: Position) -> (RobotState, Seq<Message>) {
    if !m.contains(p) {
        (r, Seq::empty())
    } else if m.tile(p).obstacle {
        if r.local_obstacles.contains(p) {
            (r, Seq::empty())
        } else {
            (
                RobotState { local_obstacles: r.local_obstacles.insert(p), ..r },
                seq![Message::ObstacleDiscovered { position: p }],
            )
        }
    } else {
        match m.tile(p).resource {
            Some(res) => {
                if r.local_resources.contains(p) {
                    (r, Seq::empty())
                } else {
                    (
                        RobotState { local_resources: r.local_resources.insert(p), ..r },
                        seq![
                            Message::ResourceDiscovered {
                                position: p,
                                kind: res.kind,
                                quantity: res.quantity,
                            },
                        ],
                    )
                }
            },
            None => (r, Seq::empty()),
        }
    }
}

/// The state and the reports of a robot that has looked at the first `n` cells of the
/// square around it.
pub open spec fn look_around(r: RobotState, m: TileMap, n: int) -> (RobotState, Seq<Message>)
    decreases n,
{
    if n <= 0 {
        (r, Seq::empty())
    } else {
        let before = look_around(r, m, n - 1);
        match scan_cell(r.position, n - 1) {
            Some(p) => {
                let after = look_at(before.0, m, p);
                (after.0, before.1 + after.1)
            },
            None => before,
        }
    }
}

/// The state and the reports of a robot that has looked at the whole square around it.
pub open spec fn discovery(r: RobotState, m: TileMap) -> (RobotState, Seq<Message>) {
    look_around(r, m, 9)
}

/// Every tile of the first `n` cells around the robot that is worth reporting is known to it.
pub open spec fn knows_around(r: RobotState, m: TileMap, n: int) -> bool {
    forall|i: int|
        0 <= i < n ==> match #[trigger] scan_cell(r.position, i) {
            Some(p) => m.contains(p) ==> (if m.tile(p).obstacle {
                r.local_obstacles.contains(p)
            } else {
                m.tile(p).resource is Some ==> r.local_resources.contains(p)
            }),
            None => true,
        }
}

proof fn lemma_look_around_grows(r: RobotState, m: TileMap, n: int)
    requires
        0 <= n <= 9,
    ensures
        look_around(r, m, n).0.position == r.position,
        look_around(r, m, n).0.id == r.id,
        look_around(r, m, n).0.robot_type == r.robot_type,
        look_around(r, m, n).0.target == r.target,
        look_around(r, m, n).0.carrying == r.carrying,
        r.local_obstacles.subset_of(look_around(r, m, n).0.local_obstacles),
        r.local_resources.subset_of(look_around(r, m, n).0.local_resources),
        knows_around(look_around(r, m, n).0, m, n),
    decreases n,
{
    if n > 0 {
        lemma_look_around_grows(r, m, n - 1);
        let before = look_around(r, m, n - 1).0;
        let after = look_around(r, m, n).0;
        assert(before.local_obstacles.subset_of(after.local_obstacles));
        assert(before.local_resources.subset_of(after.local_resources));
        assert forall|i: int| 0 <= i < n implies match #[trigger] scan_cell(after.position, i) {
            Some(p) => m.contains(p) ==> (if m.tile(p).obstacle {
                after.local_obstacles.contains(p)
            } else {
                m.tile(p).resource is Some ==> after.local_resources.contains(p)
            }),
            None => true,
        } by {
            if i < n - 1 {
                assert(scan_cell(before.position, i) == scan_cell(after.position, i));
            }
        }
    }
}

proof fn lemma_look_around_known(r: RobotState, m: TileMap, n: int)
    requires
        0 <= n <= 9,
        knows_around(r, m, 9),
    ensures
        look_around(r, m, n) == (r, Seq::<Message>::empty()),
    decreases n,
{
    if n > 0 {
        lemma_look_around_known(r, m, n - 1);
        assert(scan_cell(r.position, n - 1) == scan_cell(r.position, n - 1));
        let before = look_around(r, m, n - 1);
        assert(before.1 + Seq::<Message>::empty() =~= Seq::<Message>::empty());
    }
}

/// Looking around twice in a row reports nothing new the second time, and teaches nothing.
pub proof fn lemma_discovery_reports_once(r: RobotState, m: TileMap)
    ensures
        discovery(discovery(r, m).0, m) == (discovery(r, m).0, Seq::<Message>::empty()),
{
    lemma_look_around_grows(r, m, 9);
    lemma_look_around_known(discovery(r, m).0, m, 9);
}

/// `p` is one of the first `n` cells of the square around `c`.
spec fn scanned(c: Position, n: int, p: Position) -> bool {
    exists|i: int| 0 <= i < n && #[trigger] scan_cell(c, i) == Some(p)
}

/// A report a robot in state `r` may send after looking at `m`, where `seen` tells which
/// cells it looked at: a new obstacle, or a new deposit with its kind and quantity.
spec fn fresh_report(r: RobotState, m: TileMap, msg: Message, seen: spec_fn(Position) -> bool) -> bool {
    match msg {
        Message::ObstacleDiscovered { position } => seen(position) && m.contains(position) && m.tile(
            position,
        ).obstacle && !r.local_obstacles.contains(position),
        Message::ResourceDiscovered { position, kind, quantity } => seen(position) && m.contains(position)
            && !m.tile(position).obstacle && m.tile(position).resource == Some(Resource { kind, quantity })
            && !r.local_resources.contains(position),
        _ => false,
    }
}

proof fn lemma_scan_cell_distinct(c: Position, i: int, j: int)
    requires
        0 <= i < 9,
        0 <= j < 9,
        scan_cell(c, i) is Some,
        scan_cell(c, i) == scan_cell(c, j),
    ensures
        i == j,
{
    assert(i == 3 * (i / 3) + i % 3);
    assert(j == 3 * (j / 3) + j % 3);
}

proof fn lemma_look_around_content(r: RobotState, m: TileMap, n: int)
    requires
        0 <= n <= 9,
    ensures
        forall|p: Position|
            #[trigger] look_around(r, m, n).0.local_obstacles.contains(p) <==> r.local_obstacles.contains(p) || (
            scanned(r.position, n, p) && m.contains(p) && m.tile(p).obstacle),
        forall|p: Position|
            #[trigger] look_around(r, m, n).0.local_resources.contains(p) <==> r.local_resources.contains(p) || (
            scanned(r.position, n, p) && m.contains(p) && !m.tile(p).obstacle && m.tile(p).resource is Some),
        forall|p: Position|
            scanned(r.position, n, p) && m.contains(p) && m.tile(p).obstacle && !r.local_obstacles.contains(p)
                ==> #[trigger] look_around(r, m, n).1.contains(Message::ObstacleDiscovered { position: p }),
        forall|p: Position|
            scanned(r.position, n, p) && m.contains(p) && !m.tile(p).obstacle && m.tile(p).resource is Some
                && !r.local_resources.contains(p) ==> #[trigger] look_around(r, m, n).1.contains(
                Message::ResourceDiscovered {
                    position: p,
                    kind: m.tile(p).resource->0.kind,
                    quantity: m.tile(p).resource->0.quantity,
                },
            ),
        forall|k: int|
            0 <= k < look_around(r, m, n).1.len() ==> fresh_report(
                r,
                m,
                #[trigger] look_around(r, m, n).1[k],
                |q: Position| scanned(r.position, n, q),
            ),
    decreases n,
{
    if n > 0 {
        lemma_look_around_content(r, m, n - 1);
        lemma_look_around_grows(r, m, n - 1);
        let before = look_around(r, m, n - 1);
        let c = r.position;
        assert forall|p: Position| scanned(c, n, p) <==> scanned(c, n - 1, p) || scan_cell(c, n - 1) == Some(p) by {
            if scanned(c, n, p) {
                let i = choose|i: int| 0 <= i < n && #[trigger] scan_cell(c, i) == Some(p);
                if i < n - 1 {
                    assert(scanned(c, n - 1, p));
                }
            }
            if scanned(c, n - 1, p) {
                let i = choose|i: int| 0 <= i < n - 1 && #[trigger] scan_cell(c, i) == Some(p);
                assert(scanned(c, n, p));
            }
        }
        match scan_cell(c, n - 1) {
            Some(p0) => {
                assert(!scanned(c, n - 1, p0)) by {
                    if scanned(c, n - 1, p0) {
                        let i = choose|i: int| 0 <= i < n - 1 && #[trigger] scan_cell(c, i) == Some(p0);
                        lemma_scan_cell_distinct(c, i, n - 1);
                    }
                }
                let after = look_at(before.0, m, p0);
                assert(before.0.position == c);
                assert(look_around(r, m, n) == (after.0, before.1 + after.1));
                assert forall|k: int| 0 <= k < look_around(r, m, n).1.len() implies fresh_report(
                    r,
                    m,
                    #[trigger] look_around(r, m, n).1[k],
                    |q: Position| scanned(c, n, q),
                ) by {
                    if k < before.1.len() {
                        assert(look_around(r, m, n).1[k] == before.1[k]);
                        assert(fresh_report(r, m, before.1[k], |q: Position| scanned(c, n - 1, q)));
                    } else {
                        assert(look_around(r, m, n).1[k] == after.1[k - before.1.len()]);
                    }
                }
                assert forall|p: Position|
                    scanned(c, n, p) && m.contains(p) && m.tile(p).obstacle && !r.local_obstacles.contains(p)
                        implies #[trigger] look_around(r, m, n).1.contains(Message::ObstacleDiscovered { position: p }) by {
                    let all = look_around(r, m, n).1;
                    if p == p0 {
                        assert(!before.0.local_obstacles.contains(p0));
                        assert(all[before.1.len() as int] == Message::ObstacleDiscovered { position: p });
                    } else {
                        assert(scanned(c, n - 1, p));
                        assert(before.1.contains(Message::ObstacleDiscovered { position: p }));
                        let k = choose|k: int| 0 <= k < before.1.len() && before.1[k] == Message::ObstacleDiscovered { position: p };
                        assert(all[k] == before.1[k]);
                    }
                }
                assert forall|p: Position|
                    scanned(c, n, p) && m.contains(p) && !m.tile(p).obstacle && m.tile(p).resource is Some
                        && !r.local_resources.contains(p) implies #[trigger] look_around(r, m, n).1.contains(
                        Message::ResourceDiscovered {
                            position: p,
                            kind: m.tile(p).resource->0.kind,
                            quantity: m.tile(p).resource->0.quantity,
                        },
                    ) by {
                    let all = look_around(r, m, n).1;
                    let msg = Message::ResourceDiscovered {
                        position: p,
                        kind: m.tile(p).resource->0.kind,
                        quantity: m.tile(p).resource->0.quantity,
                    };
                    if p == p0 {
                        assert(!before.0.local_resources.contains(p0));
                        assert(all[before.1.len() as int] == msg);
                    } else {
                        assert(scanned(c, n - 1, p));
                        assert(before.1.contains(msg));
                        let k = choose|k: int| 0 <= k < before.1.len() && before.1[k] == msg;
                        assert(all[k] == before.1[k]);
                    }
                }
            },
            None => {
                assert forall|k: int| 0 <= k < look_around(r, m, n).1.len() implies fresh_report(
                    r,
                    m,
                    #[trigger] look_around(r, m, n).1[k],
                    |q: Position| scanned(c, n, q),
                ) by {
                    assert(fresh_report(r, m, before.1[k], |q: Position| scanned(c, n - 1, q)));
                }
            },
        }
    }
}

/// Looking around covers the whole 3 by 3 square centred on the robot: afterwards the robot
/// knows every obstacle and every deposit of the map within one row and one column of it,
/// and learns nothing else; it reports each of them that it did not know before, obstacles
/// by position and deposits with their kind and quantity, and reports nothing else.
pub proof fn lemma_discovery_covers_square(r: RobotState, m: TileMap)
    ensures
        forall|p: Position|
            #[trigger] discovery(r, m).0.local_obstacles.contains(p) <==> r.local_obstacles.contains(p) || (-1
                <= p.x - r.position.x <= 1 && -1 <= p.y - r.position.y <= 1 && m.contains(p) && m.tile(
                p,
            ).obstacle),
        forall|p: Position|
            #[trigger] discovery(r, m).0.local_resources.contains(p) <==> r.local_resources.contains(p) || (-1
                <= p.x - r.position.x <= 1 && -1 <= p.y - r.position.y <= 1 && m.contains(p) && !m.tile(
                p,
            ).obstacle && m.tile(p).resource is Some),
        forall|p: Position|
            -1 <= p.x - r.position.x <= 1 && -1 <= p.y - r.position.y <= 1 && m.contains(p) && m.tile(p).obstacle
                && !r.local_obstacles.contains(p) ==> #[trigger] discovery(r, m).1.contains(
                Message::ObstacleDiscovered { position: p },
            ),
        forall|p: Position|
            -1 <= p.x - r.position.x <= 1 && -1 <= p.y - r.position.y <= 1 && m.contains(p) && !m.tile(
                p,
            ).obstacle && m.tile(p).resource is Some && !r.local_resources.contains(p) ==> #[trigger] discovery(
                r,
                m,
            ).1.contains(
                Message::ResourceDiscovered {
                    position: p,
                    kind: m.tile(p).resource->0.kind,
                    quantity: m.tile(p).resource->0.quantity,
                },
            ),
        forall|k: int|
            0 <= k < discovery(r, m).1.len() ==> match #[trigger] discovery(r, m).1[k] {
                Message::ObstacleDiscovered { position } => -1 <= position.x - r.position.x <= 1 && -1
                    <= position.y - r.position.y <= 1 && m.contains(position) && m.tile(position).obstacle
                    && !r.local_obstacles.contains(position),
                Message::ResourceDiscovered { position, kind, quantity } => -1 <= position.x - r.position.x
                    <= 1 && -1 <= position.y - r.position.y <= 1 && m.contains(position) && !m.tile(
                    position,
                ).obstacle && m.tile(position).resource == Some(Resource { kind, quantity })
                    && !r.local_resources.contains(position),
                _ => false,
            },
        discovery(r, m).0.position == r.position,
        discovery(r, m).0.id == r.id,
        discovery(r, m).0.robot_type == r.robot_type,
        discovery(r, m).0.target == r.target,
        discovery(r, m).0.carrying == r.carrying,
{
    lemma_look_around_content(r, m, 9);
    lemma_look_around_grows(r, m, 9);
    let c = r.position;
    assert forall|p: Position|
        scanned(c, 9, p) <==> (-1 <= p.x - c.x <= 1 && -1 <= p.y - c.y <= 1) by {
        if -1 <= p.x - c.x <= 1 && -1 <= p.y - c.y <= 1 {
            let i = (p.y - c.y + 1) * 3 + (p.x - c.x + 1);
            assert(i % 3 == p.x - c.x + 1 && i / 3 == p.y - c.y + 1);
            assert(scan_cell(c, i) == Some(p));
        }
        if scanned(c, 9, p) {
            let i = choose|i: int| 0 <= i < 9 && #[trigger] scan_cell(c, i) == Some(p);
            assert(0 <= i % 3 < 3 && 0 <= i / 3 < 3);
        }
    }
    assert forall|k: int| 0 <= k < discovery(r, m).1.len() implies match #[trigger] discovery(r, m).1[k] {
        Message::ObstacleDiscovered { position } => -1 <= position.x - r.position.x <= 1 && -1
            <= position.y - r.position.y <= 1 && m.contains(position) && m.tile(position).obstacle
            && !r.local_obstacles.contains(position),
        Message::ResourceDiscovered { position, kind, quantity } => -1 <= position.x - r.position.x
            <= 1 && -1 <= position.y - r.position.y <= 1 && m.contains(position) && !m.tile(
            position,
        ).obstacle && m.tile(position).resource == Some(Resource { kind, quantity })
            && !r.local_resources.contains(position),
        _ => false,
    } by {
        assert(fresh_report(r, m, discovery(r, m).1[k], |q: Position| scanned(c, 9, q)));
    }
}

/// Records `position` as a known obstacle; answers the report to send if it was new.
pub fn report_obstacle(robot: &mut Robot, position: Position) -> (msg: Option<Message>)
    ensures
        final(robot)@ == (RobotState {
            local_obstacles: old(robot)@.local_obstacles.insert(position),
            ..old(robot)@
        }),
        msg == (if old(robot)@.local_obstacles.contains(position) {
            None
        } else {
            Some(Message::ObstacleDiscovered { position })
        }),
{
    if robot.local_obstacles.insert(position) {
        Some(Message::ObstacleDiscovered { position })
    } else {
        None
    }
}

/// Records `position` as a known deposit; answers the report to send if it was new.
pub fn report_resource(robot: &mut Robot, position: Position, resource: &Resource) -> (msg: Option<
    Message,
>)
    ensures
        final(robot)@ == (RobotState {
            local_resources: old(robot)@.local_resources.insert(position),
            ..old(robot)@
        }),
        msg == (if old(robot)@.local_resources.contains(position) {
            None
        } else {
            Some(
                Message::ResourceDiscovered {
                    position,
                    kind: resource.kind,
                    quantity: resource.quantity,
                },
            )
        }),
{
    if robot.local_resources.insert(position) {
        Some(
            Message::ResourceDiscovered {
                position,
                kind: resource.kind,
                quantity: resource.quantity,
            },
        )
    } else {
        None
    }
}

/// Looks at the 3 by 3 square around the robot, row by row, and answers a report for each
/// obstacle and each deposit it did not know of yet.
pub fn discover_around(robot: &mut Robot, map: &TileMap) -> (msgs: Vec<Message>)
    requires
        map.wf(),
    ensures
        (final(robot)@, msgs@) == discovery(old(robot)@, *map),
{
    let center = robot.position;
    let mut msgs: Vec<Message> = Vec::new();
    let mut i: i32 = 0;
    while i < 9
        invariant
            map.wf(),
            0 <= i <= 9,
            center == old(robot)@.position,
            (robot@, msgs@) == look_around(old(robot)@, *map, i as int),
        decreases 9 - i,
    {
        let dx: i32 = i % 3 - 1;
        let dy: i32 = i / 3 - 1;
        let ghost before = (robot@, msgs@);
        match (center.x.checked_add(dx), center.y.checked_add(dy)) {
            (Some(x), Some(y)) => {
                let scan = Position { x, y };
                assert(scan_cell(old(robot)@.position, i as int) == Some(scan));
                if map.in_bounds(&scan) {
                    let tile = map.tiles[y as usize][x as usize];
                    assert(tile == map.tile(scan));
                    if tile.obstacle {
                        if let Some(m) = report_obstacle(robot, scan) {
                            msgs.push(m);
                        }
                    } else if let Some(resource) = tile.resource {
                        if let Some(m) = report_resource(robot, scan, &resource) {
                            msgs.push(m);
                        }
                    }
                }
                assert(msgs@ =~= before.1 + look_at(before.0, *map, scan).1);
            },
            _ => {
                assert(scan_cell(old(robot)@.position, i as int) is None);
            },
        }
        i = i + 1;
    }
    msgs
}

/// A scout in state `r` ends its tick in state `r2` having sent `msgs`: it looked around,
/// took a random step, and looked around again.
pub open spec fn scout_outcome(
    m: TileMap,
    occupied: Set<Position>,
    r: RobotState,
    r2: RobotState,
    msgs: Seq<Message>,
) -> bool {
    let first = discovery(r, m);
    let second = discovery(RobotState { position: r2.position, ..first.0 }, m);
    &&& walk_outcome(m, occupied, r.position, r2.position)
    &&& r2 == second.0
    &&& msgs == first.1 + second.1
}

/// A scout's tick: it looks around, takes a random step, and looks around again.
pub fn scout_step(robot: &mut Robot, map: &TileMap, occupied: &PositionSet, rng: &mut StdRng) -> (msgs: Vec<
    Message,
>)
    requires
        map.wf(),
    ensures
        scout_outcome(*map, occupied@, old(robot)@, final(robot)@, msgs@),
{
    let mut msgs = discover_around(robot, map);
    let ghost first = robot@;
    proof {
        lemma_look_around_grows(old(robot)@, *map, 9);
    }
    random_walk(&mut robot.position, map, occupied, rng);
    let ghost moved = robot@;
    assert(moved == RobotState { position: robot@.position, ..first });
    let mut more = discover_around(robot, map);
    proof {
        lemma_look_around_grows(moved, *map, 9);
    }
    msgs.append(&mut more);
    msgs
}

/// What harvesting the tile `t` leaves there: one unit less, nothing once it is empty.
pub open spec fn harvested_tile(t: Tile) -> Tile {
    match t.resource {
        Some(res) => if res.quantity <= 1 {
            Tile { resource: None, ..t }
        } else {
            Tile { resource: Some(Resource { quantity: (res.quantity - 1) as u32, ..res }), ..t }
        },
        None => t,
    }
}

/// Harvesting never leaves an empty deposit behind: the tile keeps a deposit of one unit
/// less, or none when that was the last unit; nothing else on the tile changes.
pub proof fn lemma_harvest_leaves_no_empty_deposit(t: Tile)
    requires
        t.resource matches Some(res) && res.quantity > 0,
    ensures
        harvested_tile(t).obstacle == t.obstacle,
        harvested_tile(t).resource matches Some(res2) ==> res2.quantity > 0 && res2.kind == t.resource->0.kind
            && res2.quantity == t.resource->0.quantity - 1,
        harvested_tile(t).resource is None <==> t.resource->0.quantity == 1,
{
}

/// `m2` is `m1` with the tile at `p` replaced by `t`.
pub open spec fn tile_replaced(m1: TileMap, m2: TileMap, p: Position, t: Tile) -> bool {
    &&& m2.wf()
    &&& m2.width == m1.width
    &&& m2.height == m1.height
    &&& forall|x: int, y: int|
        0 <= x < m1.width && 0 <= y < m1.height ==> #[trigger] m2.cell(x, y) == if x == p.x && y == p.y {
            t
        } else {
            m1.cell(x, y)
        }
}

/// The robot in state `r`, standing on a tile the base believes holds a deposit, takes one
/// unit of it: answers the new robot state and the report. On an empty tile the robot takes
/// nothing and reports the deposit as gone, with the kind the base recorded.
pub open spec fn harvest(r: RobotState, m: TileMap, base: BaseState) -> (RobotState, Option<Message>) {
    match m.tile(r.position).resource {
        Some(res) => (
            RobotState { carrying: Some(res.kind), target: None, ..r },
            Some(
                Message::ResourcePicked {
                    robot_id: r.id,
                    position: r.position,
                    kind: res.kind,
                    remaining: (res.quantity - 1) as u32,
                },
            ),
        ),
        None => (
            RobotState { target: None, ..r },
            if base.known_resources.contains_key(r.position) {
                Some(
                    Message::ResourcePicked {
                        robot_id: r.id,
                        position: r.position,
                        kind: base.known_resources[r.position],
                        remaining: 0,
                    },
                )
            } else {
                None
            },
        ),
    }
}

/// Harvesting on a tile holding a deposit loads the robot with that deposit's kind, drops
/// its aim, and reports the pick by this robot, at its position, of that kind, with one
/// unit less left than the deposit held. On a tile without deposit the robot loads nothing,
/// drops its aim, and reports the deposit as gone, with no unit left, exactly when the base
/// believes in one there, with the kind the base recorded.
pub proof fn lemma_harvest_meaning(r: RobotState, m: TileMap, base: BaseState)
    ensures
        harvest(r, m, base).0.position == r.position,
        harvest(r, m, base).0.id == r.id,
        harvest(r, m, base).0.local_obstacles == r.local_obstacles,
        harvest(r, m, base).0.local_resources == r.local_resources,
        harvest(r, m, base).0.target is None,
        m.tile(r.position).resource matches Some(res) ==> {
            &&& harvest(r, m, base).0.carrying == Some(res.kind)
            &&& harvest(r, m, base).1 == Some(
                Message::ResourcePicked {
                    robot_id: r.id,
                    position: r.position,
                    kind: res.kind,
                    remaining: (res.quantity - 1) as u32,
                },
            )
        },
        m.tile(r.position).resource is None ==> {
            &&& harvest(r, m, base).0.carrying == r.carrying
            &&& (harvest(r, m, base).1 is Some <==> base.known_resources.contains_key(r.position))
            &&& base.known_resources.contains_key(r.position) ==> harvest(r, m, base).1 == Some(
                Message::ResourcePicked {
                    robot_id: r.id,
                    position: r.position,
                    kind: base.known_resources[r.position],
                    remaining: 0,
                },
            )
        },
{
}

/// Takes one unit of the deposit under the robot; on an empty tile, reports the deposit the
/// base still believes in as gone.
pub fn harvest_current_tile(robot: &mut Robot, map: &mut TileMap, base: &Base) -> (msg: Option<Message>)
    requires
        old(map).wf(),
        old(map).contains(old(robot).position),
        old(map).tile(old(robot).position).resource matches Some(res) ==> res.quantity > 0,
    ensures
        (final(robot)@, msg) == harvest(old(robot)@, *old(map), base@),
        tile_replaced(
            *old(map),
            *final(map),
            old(robot).position,
            harvested_tile(old(map).tile(old(robot).position)),
        ),
        old(map).tile(old(robot).position).resource is None ==> *final(map) == *old(map),
{
    let position = robot.position;
    let x = position.x as usize;
    let y = position.y as usize;
    let tile = map.tiles[y][x];
    assert(tile == old(map).tile(position));
    match tile.resource {
        Some(resource) => {
            let remaining = resource.quantity - 1;
            let kind = resource.kind;
            if remaining == 0 {
                map.tiles[y][x].resource = None;
            } else {
                map.tiles[y][x].resource = Some(Resource { kind, quantity: remaining });
            }
            robot.carrying = Some(kind);
            robot.target = None;
            proof {
                assert forall|cx: int, cy: int|
                    0 <= cx < old(map).width && 0 <= cy < old(map).height implies #[trigger] map.cell(cx, cy)
                    == if cx == position.x && cy == position.y {
                    harvested_tile(old(map).tile(position))
                } else {
                    old(map).cell(cx, cy)
                } by {
                    if cy == position.y && cx != position.x {
                        assert(map.tiles@[y as int]@[cx] == old(map).tiles@[y as int]@[cx]);
                    }
                }
            }
            Some(Message::ResourcePicked { robot_id: robot.id, position, kind, remaining })
        },
        None => {
            let msg = match base.known_resources.get(&position) {
                Some(kind) => Some(
                    Message::ResourcePicked { robot_id: robot.id, position, kind, remaining: 0 },
                ),
                None => None,
            };
            robot.target = None;
            msg
        },
    }
}

/// A loaded collector on the base drops its load there (answering the report); elsewhere it
/// takes a step towards the base.
pub fn deliver_to_base(
    robot: &mut Robot,
    kind: ResourceKind,
    map: &TileMap,
    base: &Base,
    occupied: &PositionSet,
    rng: &mut StdRng,
) -> (msg: Option<Message>)
    requires
        map.wf(),
    ensures
        old(robot).position == base.position ==> final(robot)@ == (RobotState {
            carrying: None,
            ..old(robot)@
        }) && msg == Some(Message::ResourceDeposited { kind }),
        old(robot).position != base.position ==> msg is None && final(robot)@ == (RobotState {
            position: final(robot).position,
            ..old(robot)@
        }) && moved_toward(*map, occupied@, old(robot).position, base.position, final(robot).position),
{
    if robot.position == base.position {
        robot.carrying = None;
        return Some(Message::ResourceDeposited { kind });
    }
    step_toward(&mut robot.position, &base.position, map, occupied, rng);
    None
}

/// A step from `from` towards `target` may end on `to`: the first cell of a shortest way,
/// in the first direction in which one begins, when there is a step to take; a random step
/// otherwise.
pub open spec fn moved_toward(m: TileMap, occupied: Set<Position>, from: Position, target: Position, to: Position) -> bool {
    if no_first_step(m, occupied, from, target) {
        walk_outcome(m, occupied, from, to)
    } else {
        chosen_first_step(m, occupied, from, target, to) && !occupied.contains(to)
    }
}

/// A collector without load heading for `aim` (if any) from `from` ends on `to`, aiming at
/// `aim2` afterwards: it steps towards its aim and gives the aim up when it could neither
/// approach nor reach it; without an aim it takes a random step.
pub open spec fn roamed(
    m: TileMap,
    occupied: Set<Position>,
    from: Position,
    aim: Option<Position>,
    to: Position,
    aim2: Option<Position>,
) -> bool {
    match aim {
        Some(t) => {
            &&& moved_toward(m, occupied, from, t, to)
            &&& aim2 == if no_first_step(m, occupied, from, t) && to != t {
                None
            } else {
                Some(t)
            }
        },
        None => walk_outcome(m, occupied, from, to) && aim2 is None,
    }
}

/// A collector in state `r0` on map `m` ends its tick in state `r_end`, the map being `m2`,
/// having sent `msgs`.
pub open spec fn collector_outcome(
    m: TileMap,
    base: &Base,
    occupied: Set<Position>,
    r0: RobotState,
    m2: TileMap,
    r_end: RobotState,
    msgs: Seq<Message>,
) -> bool {
    let r = r0;
    let known = base@.known_resources;
    match r.carrying {
        Some(kind) => {
            &&& m2 == m
            &&& if r.position == base.position {
                r_end == RobotState { carrying: None, ..r } && msgs == seq![
                    Message::ResourceDeposited { kind },
                ]
            } else {
                &&& msgs.len() == 0
                &&& r_end == RobotState { position: r_end.position, ..r }
                &&& moved_toward(m, occupied, r.position, base.position, r_end.position)
            }
        },
        None => {
            let aim = if r.target matches Some(t) && !known.contains_key(t) {
                None
            } else {
                r.target
            };
            let r1 = RobotState { target: aim, ..r };
            if known.contains_key(r.position) && m.tile(r.position).resource is Some {
                let h = harvest(r1, m, base@);
                &&& r_end == h.0
                &&& msgs == seq![h.1->0]
                &&& tile_replaced(
                    m,
                    m2,
                    r.position,
                    harvested_tile(m.tile(r.position)),
                )
            } else {
                let reported = known.contains_key(r.position);
                let r2 = if reported {
                    RobotState { target: None, ..r1 }
                } else {
                    r1
                };
                let aim2 = if r2.target is None {
                    nearest_target(m, occupied, r.position, base.known_resources.key_seq())
                } else {
                    r2.target
                };
                &&& m2 == m
                &&& msgs == if reported {
                    seq![harvest(r1, m, base@).1->0]
                } else {
                    Seq::empty()
                }
                &&& r_end == RobotState {
                    position: r_end.position,
                    target: r_end.target,
                    ..r2
                }
                &&& roamed(
                    m,
                    occupied,
                    r.position,
                    aim2,
                    r_end.position,
                    r_end.target,
                )
            }
        },
    }
}

proof fn lemma_moved_toward_safe(m: TileMap, occupied: Set<Position>, from: Position, target: Position, to: Position)
    requires
        moved_toward(m, occupied, from, target, to),
    ensures
        safe_move(m, occupied, from, to),
{
    if no_first_step(m, occupied, from, target) {
        lemma_walk_outcome(m, occupied, from, to);
    }
}

/// A scout's tick moves it safely: it stays put, or steps to a neighbouring free cell that no
/// other robot holds.
pub proof fn lemma_scout_moves_safely(
    m: TileMap,
    occupied: Set<Position>,
    r: RobotState,
    r2: RobotState,
    msgs: Seq<Message>,
)
    requires
        scout_outcome(m, occupied, r, r2, msgs),
    ensures
        safe_move(m, occupied, r.position, r2.position),
{
    lemma_walk_outcome(m, occupied, r.position, r2.position);
}

/// A collector's tick moves it safely, and changes the map at most by harvesting one unit
/// from the deposit under it.
pub proof fn lemma_collector_moves_safely(
    m: TileMap,
    base: &Base,
    occupied: Set<Position>,
    r0: RobotState,
    m2: TileMap,
    r_end: RobotState,
    msgs: Seq<Message>,
)
    requires
        collector_outcome(m, base, occupied, r0, m2, r_end, msgs),
    ensures
        safe_move(m, occupied, r0.position, r_end.position),
        m2 == m || (m.tile(r0.position).resource is Some && tile_replaced(
            m,
            m2,
            r0.position,
            harvested_tile(m.tile(r0.position)),
        )),
{
    let known = base@.known_resources;
    match r0.carrying {
        Some(kind) => {
            if r0.position != base.position {
                lemma_moved_toward_safe(m, occupied, r0.position, base.position, r_end.position);
            }
        },
        None => {
            let aim = if r0.target matches Some(t) && !known.contains_key(t) {
                None
            } else {
                r0.target
            };
            let r1 = RobotState { target: aim, ..r0 };
            if !(known.contains_key(r0.position) && m.tile(r0.position).resource is Some) {
                let reported = known.contains_key(r0.position);
                let r2 = if reported {
                    RobotState { target: None, ..r1 }
                } else {
                    r1
                };
                let aim2 = if r2.target is None {
                    nearest_target(m, occupied, r0.position, base.known_resources.key_seq())
                } else {
                    r2.target
                };
                match aim2 {
                    Some(t) => lemma_moved_toward_safe(m, occupied, r0.position, t, r_end.position),
                    None => lemma_walk_outcome(m, occupied, r0.position, r_end.position),
                }
            }
        },
    }
}

/// A loaded collector delivers what it carries: on the base its tick sends exactly one
/// report, the deposit of the kind it carries, and leaves it empty-handed where it stood;
/// away from the base it sends nothing, keeps its load and its aim, and leaves the map as
/// it was.
pub proof fn lemma_loaded_collector_delivers_its_load(
    m: TileMap,
    base: &Base,
    occupied: Set<Position>,
    r0: RobotState,
    m2: TileMap,
    r_end: RobotState,
    msgs: Seq<Message>,
    kind: ResourceKind,
)
    requires
        collector_outcome(m, base, occupied, r0, m2, r_end, msgs),
        r0.carrying == Some(kind),
    ensures
        m2 == m,
        r_end.id == r0.id,
        r_end.target == r0.target,
        r_end.local_obstacles == r0.local_obstacles,
        r_end.local_resources == r0.local_resources,
        r0.position == base.position ==> {
            &&& msgs.len() == 1
            &&& msgs[0] == Message::ResourceDeposited { kind }
            &&& r_end.carrying is None
            &&& r_end.position == r0.position
        },
        r0.position != base.position ==> msgs.len() == 0 && r_end.carrying == Some(kind),
{
}

/// A collector's tick.
///
/// A loaded collector delivers to the base (or heads for it). Otherwise it forgets an aim
/// the base no longer knows of, harvests the tile it stands on if the base knows a deposit
/// there (ending its tick once it carries a unit), picks the nearest reachable known deposit
/// when it has no aim, and moves.
pub fn collector_step(
    robot: &mut Robot,
    map: &mut TileMap,
    base: &Base,
    occupied: &PositionSet,
    rng: &mut StdRng,
) -> (msgs: Vec<Message>)
    requires
        old(map).wf(),
        old(robot).carrying is None && base@.known_resources.contains_key(old(robot).position)
            ==> old(map).contains(old(robot).position) && (old(map).tile(old(robot).position).resource matches Some(
            res,
        ) ==> res.quantity > 0),
    ensures
        collector_outcome(*old(map), base, occupied@, old(robot)@, *final(map), final(robot)@, msgs@),
{
    let mut msgs: Vec<Message> = Vec::new();
    if let Some(kind) = robot.carrying {
        if let Some(m) = deliver_to_base(robot, kind, map, base, occupied, rng) {
            msgs.push(m);
        }
        return msgs;
    }
    if let Some(target) = robot.target {
        if !base.known_resources.contains_key(&target) {
            robot.target = None;
        }
    }
    if base.known_resources.contains_key(&robot.position) {
        if let Some(m) = harvest_current_tile(robot, map, base) {
            msgs.push(m);
        }
        if robot.carrying.is_some() {
            return msgs;
        }
    }
    if robot.target.is_none() {
        robot.target = closest_reachable_resource(robot.position, &base.known_resources, map, occupied);
    }
    match robot.target {
        Some(target) => {
            let moved = step_toward(&mut robot.position, &target, map, occupied, rng);
            if !moved && robot.position != target {
                robot.target = None;
            }
        },
        None => random_walk(&mut robot.position, map, occupied, rng),
    }
    msgs
}

} // verus!
