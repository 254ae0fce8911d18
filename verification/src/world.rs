//! The whole simulation: the map, the fleet, the base and the recent events.
use rand::rngs::StdRng;
use vstd::prelude::*;
use vstd::string::*;

use crate::collections::PositionSet;
use crate::display::count_of;
use crate::config::{COLLECTOR_COUNT, EVENT_LOG_LINES, MAP_HEIGHT, MAP_WIDTH, ROBOT_COUNT, SCOUT_COUNT};
use crate::map::TileMap;
use crate::model::{
    deposit_count, lemma_deposit_count_prefix, receive_all, receive_all_logs, Base, BaseState, Message, Position, ResourceKind, Robot,
    RobotState, RobotType, Tile,
};
use crate::pathfinding::safe_move;
use crate::robot::{
    collector_outcome, collector_step, harvested_tile, lemma_collector_moves_safely,
    lemma_harvest_leaves_no_empty_deposit, lemma_scout_moves_safely, scout_outcome, scout_step,
    tile_replaced,
};

verus! {

/// The state shared by every robot and the interface.
pub struct World {
    pub map: TileMap,
    pub robots: Vec<Robot>,
    pub base: Base,
    pub events: Vec<String>,
    pub frame: u32,
}

/// The role of the `i`-th robot of the fleet: scouts first, then collectors.
pub open spec fn fleet_role(i: int) -> RobotType {
    if i < SCOUT_COUNT {
        RobotType::Scout
    } else {
        RobotType::Collector
    }
}

/// The `i`-th robot of a fresh fleet: number `i + 1`, at `home`, knowing nothing.
pub open spec fn fresh_robot(i: int, home: Position) -> RobotState {
    RobotState {
        id: (i + 1) as u32,
        position: home,
        robot_type: fleet_role(i),
        target: None,
        carrying: None,
        local_resources: Set::empty(),
        local_obstacles: Set::empty(),
    }
}

/// The event history once `message` has been recorded: the new line goes last, and only
/// the `EVENT_LOG_LINES` most recent lines are kept.
pub open spec fn record_event(events: Seq<Seq<char>>, message: Seq<char>) -> Seq<Seq<char>> {
    let all = events.push(message);
    if all.len() > EVENT_LOG_LINES {
        all.subrange(all.len() - EVENT_LOG_LINES, all.len() as int)
    } else {
        all
    }
}

/// The history once each line of `lines` has been recorded in turn.
pub open spec fn record_events(events: Seq<Seq<char>>, lines: Seq<Seq<char>>) -> Seq<Seq<char>>
    decreases lines.len(),
{
    if lines.len() == 0 {
        events
    } else {
        record_event(record_events(events, lines.drop_last()), lines.last())
    }
}

/// The positions of the robots of `robots`, the one at index `excluded` left out.
pub open spec fn positions_except(robots: Seq<Robot>, excluded: int) -> Set<Position> {
    Set::new(|p: Position| exists|i: int| 0 <= i < robots.len() && i != excluded && #[trigger] robots[i].position == p)
}

/// Recording an event keeps the `EVENT_LOG_LINES` most recent lines, in order, the new one
/// last: the whole history when it is shorter, the last `EVENT_LOG_LINES - 1` old lines
/// otherwise.
pub proof fn lemma_event_history_capped(events: Seq<Seq<char>>, message: Seq<char>)
    ensures
        record_event(events, message).len() <= EVENT_LOG_LINES,
        record_event(events, message).last() == message,
        events.len() < EVENT_LOG_LINES ==> record_event(events, message) == events.push(message),
        events.len() >= EVENT_LOG_LINES ==> record_event(events, message) == events.subrange(
            events.len() - (EVENT_LOG_LINES - 1),
            events.len() as int,
        ).push(message),
{
    if events.len() >= EVENT_LOG_LINES {
        assert(events.push(message).subrange(
            events.len() + 1 - EVENT_LOG_LINES,
            events.len() + 1 as int,
        ) =~= events.subrange(events.len() - (EVENT_LOG_LINES - 1), events.len() as int).push(message));
    }
}

/// A fresh fleet holds `SCOUT_COUNT` scouts and `COLLECTOR_COUNT` collectors, numbered
/// without repetition, all standing on the base.
pub proof fn lemma_fresh_fleet(robots: Seq<Robot>, home: Position)
    requires
        robots.len() == ROBOT_COUNT,
        forall|i: int| 0 <= i < ROBOT_COUNT ==> #[trigger] robots[i]@ == fresh_robot(i, home),
    ensures
        count_of(robots, RobotType::Scout) == SCOUT_COUNT,
        count_of(robots, RobotType::Collector) == COLLECTOR_COUNT,
        forall|i: int, j: int| #![trigger robots[i], robots[j]] 0 <= i < j < robots.len() ==> robots[i].id != robots[j].id,
        forall|i: int| #![trigger robots[i]] 0 <= i < robots.len() ==> robots[i].position == home,
{
    assert forall|i: int| #![trigger robots[i]] 0 <= i < robots.len() implies robots[i].position == home
        && robots[i].id == i + 1 && robots[i].robot_type == fleet_role(i) by {
        assert(robots[i]@ == fresh_robot(i, home));
    }
    lemma_count_prefix(robots, RobotType::Scout, ROBOT_COUNT as int);
    lemma_count_prefix(robots, RobotType::Collector, ROBOT_COUNT as int);
    assert(robots.subrange(0, ROBOT_COUNT as int) =~= robots);
}

proof fn lemma_count_prefix(robots: Seq<Robot>, robot_type: RobotType, n: int)
    requires
        0 <= n <= robots.len(),
        forall|i: int| 0 <= i < robots.len() ==> #[trigger] robots[i].robot_type == fleet_role(i),
    ensures
        count_of(robots.subrange(0, n), robot_type) == if robot_type == RobotType::Scout {
            if n < SCOUT_COUNT { n } else { SCOUT_COUNT as int }
        } else {
            if n < SCOUT_COUNT { 0 } else { n - SCOUT_COUNT }
        },
    decreases n,
{
    if n > 0 {
        lemma_count_prefix(robots, robot_type, n - 1);
        assert(robots.subrange(0, n).drop_last() =~= robots.subrange(0, n - 1));
        assert(robots.subrange(0, n).last() == robots[n - 1]);
    } else {
        assert(robots.subrange(0, n) =~= Seq::<Robot>::empty());
    }
}

/// Frees the tile at `position` of any obstacle and deposit.
fn clear_tile(map: &mut TileMap, position: Position)
    requires
        old(map).wf(),
        old(map).contains(position),
    ensures
        final(map).wf(),
        final(map).width == old(map).width,
        final(map).height == old(map).height,
        forall|x: int, y: int|
            0 <= x < old(map).width && 0 <= y < old(map).height ==> #[trigger] final(map).cell(x, y) == if x
                == position.x && y == position.y {
                Tile::default_tile()
            } else {
                old(map).cell(x, y)
            },
{
    let x = position.x as usize;
    let y = position.y as usize;
    map.tiles[y][x].obstacle = false;
    map.tiles[y][x].resource = None;
    assert forall|cx: int, cy: int| 0 <= cx < old(map).width && 0 <= cy < old(map).height implies #[trigger] map.cell(
        cx,
        cy,
    ) == if cx == position.x && cy == position.y {
        Tile::default_tile()
    } else {
        old(map).cell(cx, cy)
    } by {
        if cy == position.y && cx != position.x {
            assert(map.tiles@[y as int]@[cx] == old(map).tiles@[y as int]@[cx]);
        }
    }
}

/// A fresh fleet at `base_position`: `SCOUT_COUNT` scouts then `COLLECTOR_COUNT` collectors,
/// numbered from 1.
fn spawn_robots(base_position: Position) -> (robots: Vec<Robot>)
    ensures
        robots@.len() == ROBOT_COUNT,
        forall|i: int| 0 <= i < ROBOT_COUNT ==> #[trigger] robots@[i]@ == fresh_robot(i, base_position),
{
    let mut robots: Vec<Robot> = Vec::new();
    let mut index: usize = 0;
    while index < ROBOT_COUNT
        invariant
            index <= ROBOT_COUNT,
            robots@.len() == index,
            forall|i: int| 0 <= i < index ==> #[trigger] robots@[i]@ == fresh_robot(i, base_position),
        decreases ROBOT_COUNT - index,
    {
        let robot_type = if index < SCOUT_COUNT {
            RobotType::Scout
        } else {
            RobotType::Collector
        };
        robots.push(Robot::new(index as u32 + 1, robot_type, base_position));
        index = index + 1;
    }
    robots
}

/// A tick that moves one robot safely and at most harvests one unit under it keeps the map
/// well formed, keeps every deposit holding units, and keeps every robot on a free cell.
proof fn lemma_tick_keeps_soundness(m: TileMap, m2: TileMap, robots: Seq<Robot>, robots2: Seq<Robot>, index: int)
    requires
        m.wf(),
        m.deposits_hold_units(),
        forall|i: int| 0 <= i < robots.len() ==> m.walkable((#[trigger] robots[i]).position),
        0 <= index < robots.len(),
        robots2.len() == robots.len(),
        forall|i: int| 0 <= i < robots.len() && i != index ==> #[trigger] robots2[i] == robots[i],
        safe_move(m, positions_except(robots, index), robots[index].position, robots2[index].position),
        m2 == m || (m.tile(robots[index].position).resource is Some && tile_replaced(
            m,
            m2,
            robots[index].position,
            harvested_tile(m.tile(robots[index].position)),
        )),
    ensures
        m2.wf(),
        m2.deposits_hold_units(),
        forall|i: int| 0 <= i < robots2.len() ==> m2.walkable((#[trigger] robots2[i]).position),
{
    let p = robots[index].position;
    assert(m.walkable(robots[index].position));
    if m2 != m {
        assert(m.cell(p.x as int, p.y as int).resource is Some);
        lemma_harvest_leaves_no_empty_deposit(m.tile(p));
        assert forall|x: int, y: int| 0 <= x < m.width && 0 <= y < m.height implies #[trigger] m2.cell(x, y).obstacle
            == m.cell(x, y).obstacle && (m2.cell(x, y).resource is Some ==> m2.cell(x, y).resource->0.quantity
            > 0) by {
            if x == p.x && y == p.y {
            } else {
                assert(m2.cell(x, y) == m.cell(x, y));
            }
        }
        assert forall|i: int| 0 <= i < robots2.len() implies m2.walkable((#[trigger] robots2[i]).position) by {
            let q = robots2[i].position;
            if i != index {
                assert(robots2[i] == robots[i]);
                assert(m.walkable(robots[i].position));
            }
            assert(m.walkable(q));
            assert(m2.cell(q.x as int, q.y as int).obstacle == m.cell(q.x as int, q.y as int).obstacle);
        }
    } else {
        assert forall|i: int| 0 <= i < robots2.len() implies m2.walkable((#[trigger] robots2[i]).position) by {
            if i != index {
                assert(robots2[i] == robots[i]);
                assert(m.walkable(robots[i].position));
            }
        }
    }
}

impl World {
    /// The map is well formed.
    pub open spec fn wf(&self) -> bool {
        self.map.wf()
    }

    /// The world is sound: the map is well formed, every deposit on it holds units, and every
    /// robot stands on a cell of the map free of obstacles.
    pub open spec fn inv(&self) -> bool {
        &&& self.map.wf()
        &&& self.map.deposits_hold_units()
        &&& forall|i: int| 0 <= i < self.robots@.len() ==> self.map.walkable((#[trigger] self.robots@[i]).position)
    }

    /// The robot at `index` may tick: it exists, and a collector carrying nothing, standing
    /// where the base believes a deposit lies, stands on the map, on a tile that does not hold
    /// an empty deposit.
    pub open spec fn can_tick(&self, index: int) -> bool {
        &&& 0 <= index < self.robots@.len()
        &&& self.robots@[index].robot_type == RobotType::Collector && self.robots@[index].carrying is None
            && self.base@.known_resources.contains_key(self.robots@[index].position) ==> self.map.contains(
            self.robots@[index].position,
        ) && (self.map.tile(self.robots@[index].position).resource matches Some(res) ==> res.quantity > 0)
    }

    /// The views of the recorded events.
    pub open spec fn event_texts(&self) -> Seq<Seq<char>> {
        self.events@.map_values(|e: String| e@)
    }

    /// A world around `map`: the base in the middle, its tile cleared, the whole fleet
    /// standing on it, no knowledge, no stock, no event.
    pub fn with_map(map: TileMap) -> (w: World)
        requires
            map.wf(),
            map.width == MAP_WIDTH,
            map.height == MAP_HEIGHT,
        ensures
            w.wf(),
            w.map.width == MAP_WIDTH,
            w.map.height == MAP_HEIGHT,
            w.base.position == (Position { x: (MAP_WIDTH / 2) as i32, y: (MAP_HEIGHT / 2) as i32 }),
            forall|q: Position| map.contains(q) ==> #[trigger] w.map.tile(q) == if q == w.base.position {
                Tile::default_tile()
            } else {
                map.tile(q)
            },
            w.robots@.len() == ROBOT_COUNT,
            forall|i: int| 0 <= i < ROBOT_COUNT ==> #[trigger] w.robots@[i]@ == fresh_robot(i, w.base.position),
            w.base@ == (BaseState {
                position: w.base.position,
                stored_energy: 0,
                stored_crystals: 0,
                known_resources: Map::empty(),
                known_obstacles: Set::empty(),
            }),
            w.events@.len() == 0,
            w.frame == 0,
            map.deposits_hold_units() ==> w.inv(),
    {
        let mut map = map;
        let base_position = Position { x: (MAP_WIDTH / 2) as i32, y: (MAP_HEIGHT / 2) as i32 };
        let ghost original = map;
        clear_tile(&mut map, base_position);
        let w = World {
            map,
            robots: spawn_robots(base_position),
            base: Base::new(base_position),
            events: Vec::new(),
            frame: 0,
        };
        proof {
            assert forall|q: Position| original.contains(q) implies #[trigger] w.map.tile(q) == if q
                == base_position {
                Tile::default_tile()
            } else {
                original.tile(q)
            } by {
                assert(w.map.cell(q.x as int, q.y as int) == w.map.tile(q));
            }
            if original.deposits_hold_units() {
                assert(w.map.cell(base_position.x as int, base_position.y as int) == Tile::default_tile());
                assert forall|i: int| 0 <= i < w.robots@.len() implies w.map.walkable(
                    (#[trigger] w.robots@[i]).position,
                ) by {
                    assert(w.robots@[i]@ == fresh_robot(i, base_position));
                }
            }
        }
        w
    }

    /// Records `message` as the most recent event, keeping only the `EVENT_LOG_LINES` most
    /// recent events.
    pub fn push_event(&mut self, message: String)
        ensures
            final(self).event_texts() == record_event(old(self).event_texts(), message@),
            final(self).map == old(self).map,
            final(self).robots == old(self).robots,
            final(self).base == old(self).base,
            final(self).frame == old(self).frame,
            old(self).inv() ==> final(self).inv(),
    {
        let ghost all = self.event_texts().push(message@);
        self.events.push(message);
        assert(self.event_texts() =~= all);
        let ghost mut dropped: int = 0;
        while self.events.len() > EVENT_LOG_LINES
            invariant
                0 <= dropped <= all.len(),
                self.event_texts() == all.subrange(dropped, all.len() as int),
                all.len() > EVENT_LOG_LINES ==> dropped <= all.len() - EVENT_LOG_LINES,
                all.len() <= EVENT_LOG_LINES ==> dropped == 0,
                self.map == old(self).map,
                self.robots == old(self).robots,
                self.base == old(self).base,
                self.frame == old(self).frame,
            decreases self.events@.len(),
        {
            let ghost before = self.event_texts();
            self.events.remove(0);
            proof {
                assert(self.event_texts() =~= before.drop_first());
                dropped = dropped + 1;
                assert(self.event_texts() =~= all.subrange(dropped, all.len() as int));
            }
        }
    }

    /// The positions of every robot but the one at `excluded_index`.
    pub fn occupied_positions(&self, excluded_index: usize) -> (occupied: PositionSet)
        ensures
            occupied@ == positions_except(self.robots@, excluded_index as int),
    {
        let mut occupied = PositionSet::new();
        let mut i: usize = 0;
        while i < self.robots.len()
            invariant
                i <= self.robots@.len(),
                occupied@ == positions_except(self.robots@.subrange(0, i as int), excluded_index as int),
            decreases self.robots@.len() - i,
        {
            let ghost prefix = self.robots@.subrange(0, i as int);
            let ghost next = self.robots@.subrange(0, i + 1);
            if i != excluded_index {
                occupied.insert(self.robots[i].position);
            }
            assert(occupied@ =~= positions_except(next, excluded_index as int)) by {
                assert forall|p: Position| occupied@.contains(p) <==> positions_except(next, excluded_index as int).contains(p) by {
                    if positions_except(prefix, excluded_index as int).contains(p) {
                        let k = choose|k: int| 0 <= k < prefix.len() && k != excluded_index && #[trigger] prefix[k].position == p;
                        assert(next[k].position == p);
                    }
                    if i != excluded_index && p == self.robots@[i as int].position {
                        assert(next[i as int].position == p);
                    }
                    if positions_except(next, excluded_index as int).contains(p) {
                        let k = choose|k: int| 0 <= k < next.len() && k != excluded_index && #[trigger] next[k].position == p;
                        if k < i {
                            assert(prefix[k].position == p);
                        }
                    }
                }
            }
            i = i + 1;
        }
        assert(self.robots@.subrange(0, self.robots@.len() as int) =~= self.robots@);
        occupied
    }

    /// Hands the messages of `inbox` to the base, records each logged line as an event,
    /// counts one more frame, and answers the logged lines.
    pub fn receive_messages(&mut self, inbox: Vec<Message>) -> (lines: Vec<String>)
        requires
            old(self).base.stored_energy + deposit_count(inbox@, ResourceKind::Energy) <= u32::MAX,
            old(self).base.stored_crystals + deposit_count(inbox@, ResourceKind::Crystal) <= u32::MAX,
            old(self).frame < u32::MAX,
        ensures
            final(self).base@ == receive_all(old(self).base@, inbox@),
            lines@.map_values(|l: String| l@) == receive_all_logs(old(self).base@, inbox@),
            final(self).event_texts() == record_events(
                old(self).event_texts(),
                receive_all_logs(old(self).base@, inbox@),
            ),
            final(self).frame == old(self).frame + 1,
            final(self).map == old(self).map,
            final(self).robots == old(self).robots,
            old(self).inv() ==> final(self).inv(),
    {
        let lines = self.base.process_incoming(inbox);
        let ghost texts = lines@.map_values(|l: String| l@);
        let mut i: usize = 0;
        while i < lines.len()
            invariant
                i <= lines@.len(),
                texts == lines@.map_values(|l: String| l@),
                self.event_texts() == record_events(old(self).event_texts(), texts.subrange(0, i as int)),
                self.base@ == receive_all(old(self).base@, inbox@),
                self.frame == old(self).frame,
                self.map == old(self).map,
                self.robots == old(self).robots,
            decreases lines@.len() - i,
        {
            let line = lines[i].clone();
            self.push_event(line);
            assert(texts.subrange(0, i + 1).drop_last() =~= texts.subrange(0, i as int));
            i = i + 1;
        }
        assert(texts.subrange(0, texts.len() as int) =~= texts);
        self.frame = self.frame + 1;
        lines
    }

    /// Whether `robot_tick(index, ..)` may run.
    pub fn tick_is_safe(&self, index: usize) -> (safe: bool)
        requires
            self.wf(),
        ensures
            safe == self.can_tick(index as int),
    {
        if index >= self.robots.len() {
            return false;
        }
        let robot = &self.robots[index];
        if robot.robot_type != RobotType::Collector || robot.carrying.is_some()
            || !self.base.known_resources.contains_key(&robot.position) {
            return true;
        }
        if !self.map.in_bounds(&robot.position) {
            return false;
        }
        match self.map.tiles[robot.position.y as usize][robot.position.x as usize].resource {
            Some(res) => res.quantity > 0,
            None => true,
        }
    }

    /// Whether `receive_messages(inbox)` may run: the stock of each kind stays within `u32`
    /// and the frame counter can still grow.
    pub fn can_receive(&self, inbox: &Vec<Message>) -> (ok: bool)
        ensures
            ok == (self.base.stored_energy + deposit_count(inbox@, ResourceKind::Energy) <= u32::MAX
                && self.base.stored_crystals + deposit_count(inbox@, ResourceKind::Crystal) <= u32::MAX
                && self.frame < u32::MAX),
    {
        let mut energy: u64 = self.base.stored_energy as u64;
        let mut crystals: u64 = self.base.stored_crystals as u64;
        let mut i: usize = 0;
        while i < inbox.len()
            invariant
                i <= inbox@.len(),
                energy == self.base.stored_energy + deposit_count(inbox@.subrange(0, i as int), ResourceKind::Energy),
                crystals == self.base.stored_crystals + deposit_count(inbox@.subrange(0, i as int), ResourceKind::Crystal),
                energy <= u32::MAX,
                crystals <= u32::MAX,
            decreases inbox@.len() - i,
        {
            proof {
                assert(inbox@.subrange(0, i + 1).drop_last() =~= inbox@.subrange(0, i as int));
            }
            match inbox[i] {
                Message::ResourceDeposited { kind: ResourceKind::Energy } => {
                    energy = energy + 1;
                },
                Message::ResourceDeposited { kind: ResourceKind::Crystal } => {
                    crystals = crystals + 1;
                },
                _ => {},
            }
            if energy > u32::MAX as u64 || crystals > u32::MAX as u64 {
                proof {
                    lemma_deposit_count_prefix(inbox@, i + 1, ResourceKind::Energy);
                    lemma_deposit_count_prefix(inbox@, i + 1, ResourceKind::Crystal);
                }
                return false;
            }
            i = i + 1;
        }
        assert(inbox@.subrange(0, inbox@.len() as int) =~= inbox@);
        energy <= u32::MAX as u64 && crystals <= u32::MAX as u64 && self.frame < u32::MAX
    }

    /// One tick of the robot at `index`: a scout explores, a collector harvests, carries or
    /// delivers, the other robots standing in its way. Answers the messages for the base.
    ///
    /// The robot moves safely: it stays put or steps to a neighbouring free cell that no
    /// other robot holds. A sound world stays sound.
    pub fn robot_tick(&mut self, index: usize, rng: &mut StdRng) -> (msgs: Vec<Message>)
        requires
            old(self).wf(),
            old(self).can_tick(index as int),
        ensures
            final(self).wf(),
            final(self).robots@.len() == old(self).robots@.len(),
            forall|i: int|
                0 <= i < old(self).robots@.len() && i != index ==> #[trigger] final(self).robots@[i]
                    == old(self).robots@[i],
            final(self).base == old(self).base,
            final(self).events == old(self).events,
            final(self).frame == old(self).frame,
            ({
                let occupied = positions_except(old(self).robots@, index as int);
                let r0 = old(self).robots@[index as int]@;
                let r1 = final(self).robots@[index as int]@;
                match r0.robot_type {
                    RobotType::Scout => final(self).map == old(self).map && scout_outcome(
                        old(self).map,
                        occupied,
                        r0,
                        r1,
                        msgs@,
                    ),
                    RobotType::Collector => collector_outcome(
                        old(self).map,
                        &old(self).base,
                        occupied,
                        r0,
                        final(self).map,
                        r1,
                        msgs@,
                    ),
                }
            }),
            safe_move(
                old(self).map,
                positions_except(old(self).robots@, index as int),
                old(self).robots@[index as int].position,
                final(self).robots@[index as int].position,
            ),
            old(self).inv() ==> final(self).inv(),
    {
        let occupied = self.occupied_positions(index);
        let msgs = {
            let robot = &mut self.robots[index];
            match robot.robot_type {
                RobotType::Scout => scout_step(robot, &self.map, &occupied, rng),
                RobotType::Collector => collector_step(robot, &mut self.map, &self.base, &occupied, rng),
            }
        };
        proof {
            let occ = positions_except(old(self).robots@, index as int);
            let r0 = old(self).robots@[index as int]@;
            let r1 = self.robots@[index as int]@;
            match r0.robot_type {
                RobotType::Scout => lemma_scout_moves_safely(old(self).map, occ, r0, r1, msgs@),
                RobotType::Collector => lemma_collector_moves_safely(
                    old(self).map,
                    &old(self).base,
                    occ,
                    r0,
                    self.map,
                    r1,
                    msgs@,
                ),
            }
            if old(self).inv() {
                lemma_tick_keeps_soundness(old(self).map, self.map, old(self).robots@, self.robots@, index as int);
            }
        }
        msgs
    }
}

/// In a sound world every robot may tick.
pub proof fn lemma_sound_world_can_tick(w: World, index: int)
    requires
        w.inv(),
        0 <= index < w.robots@.len(),
    ensures
        w.can_tick(index),
{
    let p = w.robots@[index].position;
    assert(w.map.walkable(p));
    assert(w.map.cell(p.x as int, p.y as int) == w.map.tile(p));
}

} // verus!
