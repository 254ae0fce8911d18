use vstd::prelude::*;
use vstd::string::*;

use crate::collections::{PositionMap, PositionSet};
use crate::text::{int_text, kind_text, nat_text, push_int, push_kind, push_nat};

verus! {

/// A cell of the grid; `x` grows to the right and `y` downwards.
#[derive(Copy, Clone, Debug, PartialEq, Eq, Hash, Structural)]
pub struct Position {
    pub x: i32,
    pub y: i32,
}

/// The two roles a robot can have.
#[derive(Copy, Clone, Debug, PartialEq, Eq, Structural)]
pub enum RobotType {
    Scout,
    Collector,
}

/// The two kinds of resource found on the map.
#[derive(Copy, Clone, Debug, PartialEq, Eq, Structural)]
pub enum ResourceKind {
    Energy,
    Crystal,
}

/// A deposit lying on a tile.
#[derive(Copy, Clone, Debug, PartialEq, Eq, Structural)]
pub struct Resource {
    pub kind: ResourceKind,
    pub quantity: u32,
}

/// One cell of the map: it may be blocked, or hold a deposit.
#[derive(Copy, Clone, Debug, PartialEq, Eq, Structural)]
pub struct Tile {
    pub obstacle: bool,
    pub resource: Option<Resource>,
}

impl Default for Tile {
    /// A free tile without any deposit.
    fn default() -> (t: Tile)
        ensures
            t == (Tile { obstacle: false, resource: None }),
    {
        Tile { obstacle: false, resource: None }
    }
}

/// What robots report to the base.
#[derive(Copy, Clone, Debug, PartialEq, Eq, Structural)]
pub enum Message {
    ResourceDiscovered { position: Position, kind: ResourceKind, quantity: u32 },
    ObstacleDiscovered { position: Position },
    ResourcePicked { robot_id: u32, position: Position, kind: ResourceKind, remaining: u32 },
    ResourceDeposited { kind: ResourceKind },
}

/// A robot and what it has learnt of the map by itself.
#[derive(Clone, Debug)]
pub struct Robot {
    pub id: u32,
    pub position: Position,
    pub robot_type: RobotType,
    pub target: Option<Position>,
    pub carrying: Option<ResourceKind>,
    pub local_resources: PositionSet,
    pub local_obstacles: PositionSet,
}

/// The abstract state of a robot: its fields, with its two position sets as sets.
#[verifier::ext_equal]
pub struct RobotState {
    pub id: u32,
    pub position: Position,
    pub robot_type: RobotType,
    pub target: Option<Position>,
    pub carrying: Option<ResourceKind>,
    pub local_resources: Set<Position>,
    pub local_obstacles: Set<Position>,
}

impl View for Robot {
    type V = RobotState;

    open spec fn view(&self) -> RobotState {
        RobotState {
            id: self.id,
            position: self.position,
            robot_type: self.robot_type,
            target: self.target,
            carrying: self.carrying,
            local_resources: self.local_resources@,
            local_obstacles: self.local_obstacles@,
        }
    }
}

impl Robot {
    /// A robot that knows nothing yet, aims at nothing and carries nothing.
    pub fn new(id: u32, robot_type: RobotType, position: Position) -> (r: Robot)
        ensures
            r@ == (RobotState {
                id,
                position,
                robot_type,
                target: None,
                carrying: None,
                local_resources: Set::empty(),
                local_obstacles: Set::empty(),
            }),
    {
        Robot {
            id,
            position,
            robot_type,
            target: None,
            carrying: None,
            local_resources: PositionSet::new(),
            local_obstacles: PositionSet::new(),
        }
    }
}

/// The base: the stock it holds and the knowledge all robots share.
#[derive(Clone, Debug)]
pub struct Base {
    pub position: Position,
    pub stored_energy: u32,
    pub stored_crystals: u32,
    pub known_resources: PositionMap,
    pub known_obstacles: PositionSet,
}

/// The abstract state of the base.
#[verifier::ext_equal]
pub struct BaseState {
    pub position: Position,
    pub stored_energy: int,
    pub stored_crystals: int,
    pub known_resources: Map<Position, ResourceKind>,
    pub known_obstacles: Set<Position>,
}

impl View for Base {
    type V = BaseState;

    open spec fn view(&self) -> BaseState {
        BaseState {
            position: self.position,
            stored_energy: self.stored_energy as int,
            stored_crystals: self.stored_crystals as int,
            known_resources: self.known_resources@,
            known_obstacles: self.known_obstacles@,
        }
    }
}

/// `(x,y)` written as text.
pub open spec fn coords_text(p: Position) -> Seq<char> {
    "("@ + int_text(p.x as int) + ","@ + int_text(p.y as int) + ")"@
}

/// The state of the base once it has taken `m` into account.
pub open spec fn receive(s: BaseState, m: Message) -> BaseState {
    match m {
        Message::ResourceDiscovered { position, kind, .. } => {
            if s.known_resources.contains_key(position) {
                s
            } else {
                BaseState { known_resources: s.known_resources.insert(position, kind), ..s }
            }
        },
        Message::ObstacleDiscovered { position } => {
            BaseState { known_obstacles: s.known_obstacles.insert(position), ..s }
        },
        Message::ResourcePicked { position, remaining, .. } => {
            if remaining == 0 {
                BaseState { known_resources: s.known_resources.remove(position), ..s }
            } else {
                s
            }
        },
        Message::ResourceDeposited { kind } => match kind {
            ResourceKind::Energy => BaseState { stored_energy: s.stored_energy + 1, ..s },
            ResourceKind::Crystal => BaseState { stored_crystals: s.stored_crystals + 1, ..s },
        },
    }
}

/// The line the base logs when it takes `m` into account in state `s`, if any.
pub open spec fn receive_log(s: BaseState, m: Message) -> Option<Seq<char>> {
    match m {
        Message::ResourceDiscovered { position, kind, quantity } => {
            if s.known_resources.contains_key(position) {
                None
            } else {
                Some(
                    "[network] "@ + kind_text(kind) + " at "@ + coords_text(position) + " — "@
                        + nat_text(quantity as nat) + " units (new at base)"@,
                )
            }
        },
        Message::ObstacleDiscovered { position } => {
            if s.known_obstacles.contains(position) {
                None
            } else {
                Some("[network] obstacle at "@ + coords_text(position) + " (new at base)"@)
            }
        },
        Message::ResourcePicked { robot_id, position, kind, remaining } => {
            if remaining == 0 {
                Some("[depleted] "@ + kind_text(kind) + " at "@ + coords_text(position) + " — REMOVED"@)
            } else {
                Some(
                    "[pick] robot #"@ + nat_text(robot_id as nat) + " took 1 "@ + kind_text(kind)
                        + " at "@ + coords_text(position) + " — "@ + nat_text(remaining as nat)
                        + " left"@,
                )
            }
        },
        Message::ResourceDeposited { kind } => {
            let total = match kind {
                ResourceKind::Energy => s.stored_energy + 1,
                ResourceKind::Crystal => s.stored_crystals + 1,
            };
            Some("[deposit] "@ + kind_text(kind) + " → base (total: "@ + nat_text(total as nat) + ")"@)
        },
    }
}

/// The state of the base once it has taken the messages of `msgs` into account, in order.
pub open spec fn receive_all(s: BaseState, msgs: Seq<Message>) -> BaseState
    decreases msgs.len(),
{
    if msgs.len() == 0 {
        s
    } else {
        receive(receive_all(s, msgs.drop_last()), msgs.last())
    }
}

/// The lines logged while the base takes the messages of `msgs` into account, in order.
pub open spec fn receive_all_logs(s: BaseState, msgs: Seq<Message>) -> Seq<Seq<char>>
    decreases msgs.len(),
{
    if msgs.len() == 0 {
        Seq::empty()
    } else {
        let before = receive_all(s, msgs.drop_last());
        receive_all_logs(s, msgs.drop_last()) + match receive_log(before, msgs.last()) {
            Some(line) => seq![line],
            None => Seq::empty(),
        }
    }
}

/// How many messages of `msgs` deposit a unit of `kind`.
pub open spec fn deposit_count(msgs: Seq<Message>, kind: ResourceKind) -> nat
    decreases msgs.len(),
{
    if msgs.len() == 0 {
        0
    } else {
        deposit_count(msgs.drop_last(), kind) + if msgs.last() == (Message::ResourceDeposited { kind }) {
            1nat
        } else {
            0nat
        }
    }
}

/// A prefix of a batch deposits no more than the whole batch.
pub proof fn lemma_deposit_count_prefix(msgs: Seq<Message>, i: int, kind: ResourceKind)
    requires
        0 <= i <= msgs.len(),
    ensures
        deposit_count(msgs.subrange(0, i), kind) <= deposit_count(msgs, kind),
    decreases msgs.len() - i,
{
    if i < msgs.len() {
        lemma_deposit_count_prefix(msgs, i + 1, kind);
        assert(msgs.subrange(0, i + 1).drop_last() =~= msgs.subrange(0, i));
    } else {
        assert(msgs.subrange(0, i) =~= msgs);
    }
}

/// Each deposit adds one unit of its kind to the stock, and nothing else changes the stock
/// or moves the base.
pub proof fn lemma_receive_all_stock(s: BaseState, msgs: Seq<Message>)
    ensures
        receive_all(s, msgs).stored_energy == s.stored_energy + deposit_count(msgs, ResourceKind::Energy),
        receive_all(s, msgs).stored_crystals == s.stored_crystals + deposit_count(
            msgs,
            ResourceKind::Crystal,
        ),
        receive_all(s, msgs).position == s.position,
    decreases msgs.len(),
{
    if msgs.len() > 0 {
        lemma_receive_all_stock(s, msgs.drop_last());
    }
}

/// A discovery the base has already taken into account changes nothing the second time,
/// and is not logged again.
pub proof fn lemma_discovery_registered_once(s: BaseState, m: Message)
    requires
        m is ResourceDiscovered || m is ObstacleDiscovered,
    ensures
        receive(receive(s, m), m) == receive(s, m),
        receive_log(receive(s, m), m) is None,
{
    let s1 = receive(s, m);
    match m {
        Message::ObstacleDiscovered { position } => {
            assert(s1.known_obstacles.insert(position) =~= s1.known_obstacles);
        },
        _ => {},
    }
}

/// A pick that leaves no unit makes the base forget that deposit and only it: every other
/// known deposit stays known with the same kind. A pick that leaves units keeps the base as
/// it is. Neither changes the stock nor the known obstacles.
pub proof fn lemma_pick_forgets_only_empty_deposits(s: BaseState, m: Message)
    requires
        m is ResourcePicked,
    ensures
        m->remaining == 0 ==> !receive(s, m).known_resources.contains_key(m->ResourcePicked_position),
        m->remaining == 0 ==> forall|q: Position|
            q != m->ResourcePicked_position ==> (receive(s, m).known_resources.contains_key(q)
                <==> s.known_resources.contains_key(q)),
        m->remaining == 0 ==> forall|q: Position|
            q != m->ResourcePicked_position && s.known_resources.contains_key(q) ==> receive(
                s,
                m,
            ).known_resources[q] == s.known_resources[q],
        m->remaining != 0 ==> receive(s, m) == s,
        receive(s, m).stored_energy == s.stored_energy,
        receive(s, m).stored_crystals == s.stored_crystals,
        receive(s, m).known_obstacles == s.known_obstacles,
        receive(s, m).position == s.position,
{
}

/// What each message does to the base, field by field: a discovery of a deposit adds it,
/// with its kind, only when its position was unknown; a discovery of an obstacle adds its
/// position; a pick leaving no unit removes exactly its position; a deposit adds one unit
/// of its kind. Whatever a message does not name stays as it was.
pub proof fn lemma_receive_effect(s: BaseState, m: Message)
    ensures
        receive(s, m).position == s.position,
        forall|q: Position|
            #![trigger receive(s, m).known_resources.contains_key(q)]
            !(m matches Message::ResourceDiscovered { position, .. } && position == q) && !(m matches Message::ResourcePicked {
                position,
                remaining,
                ..
            } && position == q && remaining == 0) ==> (receive(s, m).known_resources.contains_key(q)
                <==> s.known_resources.contains_key(q)) && (s.known_resources.contains_key(q) ==> receive(
                s,
                m,
            ).known_resources[q] == s.known_resources[q]),
        forall|q: Position|
            #![trigger receive(s, m).known_obstacles.contains(q)]
            !(m matches Message::ObstacleDiscovered { position } && position == q) ==> (receive(
                s,
                m,
            ).known_obstacles.contains(q) <==> s.known_obstacles.contains(q)),
        m matches Message::ResourceDiscovered { position, kind, .. } ==> receive(s, m).known_resources.contains_key(
            position,
        ) && receive(s, m).known_resources[position] == if s.known_resources.contains_key(position) {
            s.known_resources[position]
        } else {
            kind
        },
        m matches Message::ObstacleDiscovered { position } ==> receive(s, m).known_obstacles.contains(position),
        m matches Message::ResourcePicked { position, remaining, .. } ==> (remaining == 0
            ==> !receive(s, m).known_resources.contains_key(position)),
        receive(s, m).stored_energy == s.stored_energy + if m == (Message::ResourceDeposited {
            kind: ResourceKind::Energy,
        }) {
            1int
        } else {
            0int
        },
        receive(s, m).stored_crystals == s.stored_crystals + if m == (Message::ResourceDeposited {
            kind: ResourceKind::Crystal,
        }) {
            1int
        } else {
            0int
        },
{
}

fn push_coords(line: &mut String, p: Position)
    ensures
        final(line)@ == old(line)@ + coords_text(p),
{
    line.append("(");
    push_int(line, p.x as i64);
    line.append(",");
    push_int(line, p.y as i64);
    line.append(")");
    assert(final(line)@ =~= old(line)@ + coords_text(p));
}

impl Base {
    /// A base at `position` with an empty stock and no knowledge.
    pub fn new(position: Position) -> (b: Base)
        ensures
            b@ == (BaseState {
                position,
                stored_energy: 0,
                stored_crystals: 0,
                known_resources: Map::empty(),
                known_obstacles: Set::empty(),
            }),
    {
        Base {
            position,
            stored_energy: 0,
            stored_crystals: 0,
            known_resources: PositionMap::new(),
            known_obstacles: PositionSet::new(),
        }
    }

    fn receive_one(&mut self, m: Message) -> (line: Option<String>)
        requires
            m == (Message::ResourceDeposited { kind: ResourceKind::Energy }) ==> old(self).stored_energy < u32::MAX,
            m == (Message::ResourceDeposited { kind: ResourceKind::Crystal }) ==> old(self).stored_crystals < u32::MAX,
        ensures
            final(self)@ == receive(old(self)@, m),
            match line {
                Some(l) => receive_log(old(self)@, m) == Some(l@),
                None => receive_log(old(self)@, m) is None,
            },
    {
        match m {
            Message::ResourceDiscovered { position, kind, quantity } => {
                if self.known_resources.contains_key(&position) {
                    None
                } else {
                    self.known_resources.insert(position, kind);
                    let mut line = String::new();
                    line.append("[network] ");
                    push_kind(&mut line, kind);
                    line.append(" at ");
                    push_coords(&mut line, position);
                    line.append(" — ");
                    push_nat(&mut line, quantity as u64);
                    line.append(" units (new at base)");
                    Some(line)
                }
            },
            Message::ObstacleDiscovered { position } => {
                if self.known_obstacles.insert(position) {
                    let mut line = String::new();
                    line.append("[network] obstacle at ");
                    push_coords(&mut line, position);
                    line.append(" (new at base)");
                    Some(line)
                } else {
                    None
                }
            },
            Message::ResourcePicked { robot_id, position, kind, remaining } => {
                let mut line = String::new();
                if remaining == 0 {
                    self.known_resources.remove(&position);
                    line.append("[depleted] ");
                    push_kind(&mut line, kind);
                    line.append(" at ");
                    push_coords(&mut line, position);
                    line.append(" — REMOVED");
                } else {
                    line.append("[pick] robot #");
                    push_nat(&mut line, robot_id as u64);
                    line.append(" took 1 ");
                    push_kind(&mut line, kind);
                    line.append(" at ");
                    push_coords(&mut line, position);
                    line.append(" — ");
                    push_nat(&mut line, remaining as u64);
                    line.append(" left");
                }
                Some(line)
            },
            Message::ResourceDeposited { kind } => {
                let total = match kind {
                    ResourceKind::Energy => {
                        self.stored_energy = self.stored_energy + 1;
                        self.stored_energy
                    },
                    ResourceKind::Crystal => {
                        self.stored_crystals = self.stored_crystals + 1;
                        self.stored_crystals
                    },
                };
                let mut line = String::new();
                line.append("[deposit] ");
                push_kind(&mut line, kind);
                line.append(" → base (total: ");
                push_nat(&mut line, total as u64);
                line.append(")");
                Some(line)
            },
        }
    }

    /// Takes every message of `inbox` into account, in order, and answers the lines to log.
    ///
    /// A discovery the base already knows of changes nothing and logs nothing; a pick that
    /// leaves no unit makes the base forget the deposit; a deposit adds one unit to the stock.
    pub fn process_incoming(&mut self, inbox: Vec<Message>) -> (logs: Vec<String>)
        requires
            old(self).stored_energy + deposit_count(inbox@, ResourceKind::Energy) <= u32::MAX,
            old(self).stored_crystals + deposit_count(inbox@, ResourceKind::Crystal) <= u32::MAX,
        ensures
            final(self)@ == receive_all(old(self)@, inbox@),
            logs@.map_values(|l: String| l@) == receive_all_logs(old(self)@, inbox@),
    {
        let mut logs: Vec<String> = Vec::new();
        let mut i: usize = 0;
        while i < inbox.len()
            invariant
                i <= inbox@.len(),
                self@ == receive_all(old(self)@, inbox@.subrange(0, i as int)),
                logs@.map_values(|l: String| l@) == receive_all_logs(
                    old(self)@,
                    inbox@.subrange(0, i as int),
                ),
                old(self).stored_energy + deposit_count(inbox@, ResourceKind::Energy) <= u32::MAX,
                old(self).stored_crystals + deposit_count(inbox@, ResourceKind::Crystal) <= u32::MAX,
            decreases inbox@.len() - i,
        {
            let m = inbox[i];
            let ghost prefix = inbox@.subrange(0, i as int);
            let ghost next = inbox@.subrange(0, i + 1);
            proof {
                assert(next.drop_last() =~= prefix);
                lemma_receive_all_stock(old(self)@, prefix);
                lemma_deposit_count_prefix(inbox@, i + 1, ResourceKind::Energy);
                lemma_deposit_count_prefix(inbox@, i + 1, ResourceKind::Crystal);
            }
            let line = self.receive_one(m);
            let ghost before = logs@.map_values(|l: String| l@);
            match line {
                Some(l) => {
                    logs.push(l);
                    assert(logs@.map_values(|l: String| l@) =~= before + seq![l@]);
                },
                None => {
                    assert(logs@.map_values(|l: String| l@) =~= before + Seq::empty());
                },
            }
            i = i + 1;
        }
        assert(inbox@.subrange(0, inbox@.len() as int) =~= inbox@);
        logs
    }
}

} // verus!
