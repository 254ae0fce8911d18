//! How robots move: shortest steps towards a target, random steps, and the choice of the
//! deposit to head for.
use rand::rngs::StdRng;
use vstd::prelude::*;

use crate::collections::{lemma_key_seq_lists_keys, PositionMap, PositionSet};
use crate::grid::{adjacent, chosen_first_step, lemma_direction_adjacent, neighbor, no_first_step};
use crate::map::TileMap;
use crate::model::Position;
use crate::rng::random_below;
pub use crate::search::bfs_next_step;

verus! {

/// Stepping from `p` in direction `d` lands on a free cell of the map.
pub open spec fn free_step(m: TileMap, occupied: Set<Position>, p: Position, d: int) -> bool {
    neighbor(p, d) matches Some(n) && m.walkable(n) && !occupied.contains(n)
}

/// Where a random step from `p` ends when the directions are tried in turn from `first`,
/// beginning after `k` of them: the first free neighbour, or `p` itself if there is none.
pub open spec fn walk_from(m: TileMap, occupied: Set<Position>, p: Position, first: int, k: int) -> Position
    decreases 4 - k,
{
    if k >= 4 {
        p
    } else {
        let d = (first + k) % 4;
        if free_step(m, occupied, p, d) {
            neighbor(p, d)->0
        } else {
            walk_from(m, occupied, p, first, k + 1)
        }
    }
}

/// `to` is where a random step from `from` may end, for some first direction.
pub open spec fn walk_outcome(m: TileMap, occupied: Set<Position>, from: Position, to: Position) -> bool {
    exists|first: int| 0 <= first < 4 && to == #[trigger] walk_from(m, occupied, from, first, 0)
}

/// Some neighbour of `p` is free.
pub open spec fn can_move(m: TileMap, occupied: Set<Position>, p: Position) -> bool {
    exists|d: int| 0 <= d < 4 && #[trigger] free_step(m, occupied, p, d)
}

/// A move from `from` to `to` is safe: the robot stays put, or steps to a neighbouring cell
/// of the map that holds no obstacle and no other robot.
pub open spec fn safe_move(m: TileMap, occupied: Set<Position>, from: Position, to: Position) -> bool {
    to == from || (adjacent(from, to) && m.walkable(to) && !occupied.contains(to))
}

proof fn lemma_walk_from(m: TileMap, occupied: Set<Position>, p: Position, first: int, k: int)
    requires
        0 <= first < 4,
        0 <= k <= 4,
    ensures
        walk_from(m, occupied, p, first, k) == p || {
            let n = walk_from(m, occupied, p, first, k);
            adjacent(p, n) && m.walkable(n) && !occupied.contains(n)
        },
        walk_from(m, occupied, p, first, k) == p <==> forall|j: int|
            k <= j < 4 ==> !#[trigger] free_step(m, occupied, p, (first + j) % 4),
    decreases 4 - k,
{
    if k < 4 {
        lemma_walk_from(m, occupied, p, first, k + 1);
        let d = (first + k) % 4;
        lemma_direction_adjacent(p, d);
        if free_step(m, occupied, p, d) {
            let n = neighbor(p, d)->0;
            assert(n != p);
        }
        assert forall|j: int| k + 1 <= j < 4 implies #[trigger] free_step(m, occupied, p, (first + j) % 4)
            == free_step(m, occupied, p, (first + j) % 4) by {}
    }
}

/// A random step either stays put, when no neighbour is free, or moves to a free neighbour.
pub proof fn lemma_walk_outcome(m: TileMap, occupied: Set<Position>, from: Position, to: Position)
    requires
        walk_outcome(m, occupied, from, to),
    ensures
        to == from <==> !can_move(m, occupied, from),
        to != from ==> adjacent(from, to) && m.walkable(to) && !occupied.contains(to),
{
    let first = choose|first: int| 0 <= first < 4 && to == #[trigger] walk_from(m, occupied, from, first, 0);
    lemma_walk_from(m, occupied, from, first, 0);
    if can_move(m, occupied, from) {
        let d = choose|d: int| 0 <= d < 4 && #[trigger] free_step(m, occupied, from, d);
        let j = (d - first + 4) % 4;
        assert((first + j) % 4 == d);
    } else {
        assert forall|j: int| 0 <= j < 4 implies !#[trigger] free_step(m, occupied, from, (first + j) % 4) by {
            assert(0 <= (first + j) % 4 < 4);
        }
    }
}

fn neighbor_of(p: Position, d: usize) -> (r: Option<Position>)
    requires
        d < 4,
    ensures
        r == neighbor(p, d as int),
{
    let dx: i32 = if d == 2 {
        -1
    } else if d == 3 {
        1
    } else {
        0
    };
    let dy: i32 = if d == 0 {
        -1
    } else if d == 1 {
        1
    } else {
        0
    };
    match (p.x.checked_add(dx), p.y.checked_add(dy)) {
        (Some(x), Some(y)) => Some(Position { x, y }),
        _ => None,
    }
}

/// Moves `pos` to the first free neighbour found when the four directions are tried in
/// turn from `first`; leaves it in place when none is free.
pub fn walk_from_direction(pos: &mut Position, map: &TileMap, occupied: &PositionSet, first: usize)
    requires
        map.wf(),
        first < 4,
    ensures
        *final(pos) == walk_from(*map, occupied@, *old(pos), first as int, 0),
{
    let start = *pos;
    let mut offset: usize = 0;
    while offset < 4
        invariant
            map.wf(),
            first < 4,
            offset <= 4,
            *pos == start,
            start == *old(pos),
            walk_from(*map, occupied@, start, first as int, 0) == walk_from(
                *map,
                occupied@,
                start,
                first as int,
                offset as int,
            ),
        decreases 4 - offset,
    {
        let d = (first + offset) % 4;
        if let Some(next) = neighbor_of(start, d) {
            if map.is_walkable(&next) && !occupied.contains(&next) {
                assert(free_step(*map, occupied@, start, d as int));
                assert(walk_from(*map, occupied@, start, first as int, offset as int) == next);
                *pos = next;
                return;
            }
        }
        offset = offset + 1;
    }
}

/// Moves `pos` one step in a random direction to a free cell of the map; stays in place
/// when every neighbour is blocked, off the map, or taken.
pub fn random_walk(pos: &mut Position, map: &TileMap, occupied: &PositionSet, rng: &mut StdRng)
    requires
        map.wf(),
    ensures
        walk_outcome(*map, occupied@, *old(pos), *final(pos)),
        *final(pos) == *old(pos) <==> !can_move(*map, occupied@, *old(pos)),
        *final(pos) != *old(pos) ==> adjacent(*old(pos), *final(pos)) && map.walkable(*final(pos))
            && !occupied@.contains(*final(pos)),
{
    let first = random_below(rng, 4);
    walk_from_direction(pos, map, occupied, first);
    proof {
        assert(walk_outcome(*map, occupied@, *old(pos), *pos)) by {
            assert(0 <= first < 4);
        }
        lemma_walk_outcome(*map, occupied@, *old(pos), *pos);
    }
}

/// Takes one step towards `target` along a shortest way when there is one (answering
/// `true`), in the first direction, in the order up, down, left, right, in which a shortest
/// way begins; otherwise takes a random step (answering `false`).
pub fn step_toward(
    pos: &mut Position,
    target: &Position,
    map: &TileMap,
    occupied: &PositionSet,
    rng: &mut StdRng,
) -> (moved: bool)
    requires
        map.wf(),
    ensures
        moved == !no_first_step(*map, occupied@, *old(pos), *target),
        moved ==> chosen_first_step(*map, occupied@, *old(pos), *target, *final(pos))
            && !occupied@.contains(*final(pos)),
        !moved ==> walk_outcome(*map, occupied@, *old(pos), *final(pos)),
{
    match bfs_next_step(pos, target, map, occupied) {
        Some(next) => {
            *pos = next;
            true
        },
        None => {
            random_walk(pos, map, occupied, rng);
            false
        },
    }
}

/// Number of steps between `a` and `b` when moving along rows and columns only.
pub open spec fn manhattan(a: Position, b: Position) -> int {
    (if a.x >= b.x { a.x - b.x } else { b.x - a.x }) + (if a.y >= b.y { a.y - b.y } else { b.y - a.y })
}

/// A collector at `start` would head for `t`: it stands on it, or can take a step towards it.
pub open spec fn worth_heading(m: TileMap, occupied: Set<Position>, start: Position, t: Position) -> bool {
    t == start || !no_first_step(m, occupied, start, t)
}

/// Among the first `n` entries of `keys`, the index of the nearest one worth heading for,
/// the earliest one winning a tie.
pub open spec fn nearest_index(
    m: TileMap,
    occupied: Set<Position>,
    start: Position,
    keys: Seq<Position>,
    n: int,
) -> Option<int>
    decreases n,
{
    if n <= 0 {
        None
    } else {
        let prev = nearest_index(m, occupied, start, keys, n - 1);
        let t = keys[n - 1];
        if worth_heading(m, occupied, start, t) && (prev is None || manhattan(start, t) < manhattan(
            start,
            keys[prev->0],
        )) {
            Some(n - 1)
        } else {
            prev
        }
    }
}

/// The nearest entry of `keys` worth heading for, the earliest one winning a tie.
pub open spec fn nearest_target(m: TileMap, occupied: Set<Position>, start: Position, keys: Seq<Position>) -> Option<Position> {
    match nearest_index(m, occupied, start, keys, keys.len() as int) {
        Some(i) => Some(keys[i]),
        None => None,
    }
}

proof fn lemma_nearest_index(
    m: TileMap,
    occupied: Set<Position>,
    start: Position,
    keys: Seq<Position>,
    n: int,
)
    requires
        0 <= n <= keys.len(),
    ensures
        nearest_index(m, occupied, start, keys, n) matches Some(i) ==> {
            &&& 0 <= i < n
            &&& worth_heading(m, occupied, start, keys[i])
            &&& forall|j: int|
                0 <= j < n && worth_heading(m, occupied, start, #[trigger] keys[j]) ==> manhattan(start, keys[i])
                    < manhattan(start, keys[j]) || (manhattan(start, keys[i]) == manhattan(start, keys[j])
                    && i <= j)
        },
        nearest_index(m, occupied, start, keys, n) is None ==> forall|j: int|
            0 <= j < n ==> !worth_heading(m, occupied, start, #[trigger] keys[j]),
    decreases n,
{
    if n > 0 {
        lemma_nearest_index(m, occupied, start, keys, n - 1);
    }
}

/// The target chosen among `keys` is one of them, worth heading for, and no key worth
/// heading for is nearer; among equally near ones it comes first. When none is chosen, no
/// key is worth heading for.
pub proof fn lemma_nearest_target_is_nearest(
    m: TileMap,
    occupied: Set<Position>,
    start: Position,
    keys: Seq<Position>,
)
    ensures
        nearest_target(m, occupied, start, keys) matches Some(t) ==> {
            &&& keys.contains(t)
            &&& worth_heading(m, occupied, start, t)
            &&& forall|j: int|
                0 <= j < keys.len() && worth_heading(m, occupied, start, #[trigger] keys[j]) ==> manhattan(
                    start,
                    t,
                ) <= manhattan(start, keys[j])
        },
        nearest_target(m, occupied, start, keys) is None ==> forall|j: int|
            0 <= j < keys.len() ==> !worth_heading(m, occupied, start, #[trigger] keys[j]),
{
    lemma_nearest_index(m, occupied, start, keys, keys.len() as int);
    if let Some(i) = nearest_index(m, occupied, start, keys, keys.len() as int) {
        assert(keys[i] == keys[i]);
    }
}

/// The deposit a collector at `start` heads for is a known deposit it stands on or can take
/// a step towards, and no other such known deposit is nearer to `start`, counting the
/// columns and the rows between them; when none is chosen, no known deposit is one the
/// collector stands on or can step towards.
pub proof fn lemma_closest_is_nearest(m: TileMap, occupied: Set<Position>, start: Position, known: PositionMap)
    ensures
        nearest_target(m, occupied, start, known.key_seq()) matches Some(t) ==> {
            &&& known@.contains_key(t)
            &&& (t == start || !no_first_step(m, occupied, start, t))
            &&& forall|k: Position|
                #[trigger] known@.contains_key(k) && (k == start || !no_first_step(m, occupied, start, k))
                    ==> (if t.x >= start.x { t.x - start.x } else { start.x - t.x }) + (if t.y >= start.y {
                    t.y - start.y
                } else {
                    start.y - t.y
                }) <= (if k.x >= start.x { k.x - start.x } else { start.x - k.x }) + (if k.y >= start.y {
                    k.y - start.y
                } else {
                    start.y - k.y
                })
            &&& forall|j: int|
                0 <= j < known.key_seq().len() && (known.key_seq()[j] == start || !no_first_step(
                    m,
                    occupied,
                    start,
                    known.key_seq()[j],
                )) && (if t.x >= start.x { t.x - start.x } else { start.x - t.x }) + (if t.y >= start.y {
                    t.y - start.y
                } else {
                    start.y - t.y
                }) == (if #[trigger] known.key_seq()[j].x >= start.x {
                    known.key_seq()[j].x - start.x
                } else {
                    start.x - known.key_seq()[j].x
                }) + (if known.key_seq()[j].y >= start.y {
                    known.key_seq()[j].y - start.y
                } else {
                    start.y - known.key_seq()[j].y
                }) ==> exists|i: int| 0 <= i <= j && known.key_seq()[i] == t
        },
        nearest_target(m, occupied, start, known.key_seq()) is None ==> forall|k: Position|
            #[trigger] known@.contains_key(k) ==> !(k == start || !no_first_step(m, occupied, start, k)),
{
    let keys = known.key_seq();
    lemma_key_seq_lists_keys(known);
    lemma_nearest_target_is_nearest(m, occupied, start, keys);
    lemma_nearest_index(m, occupied, start, keys, keys.len() as int);
    if let Some(i) = nearest_index(m, occupied, start, keys, keys.len() as int) {
        assert forall|j: int|
            0 <= j < keys.len() && worth_heading(m, occupied, start, keys[j]) && manhattan(start, keys[i])
                == #[trigger] manhattan(start, keys[j]) implies exists|i2: int| 0 <= i2 <= j && keys[i2] == keys[i] by {
            assert(worth_heading(m, occupied, start, keys[j]));
        }
    }
    assert forall|k: Position| #[trigger] known@.contains_key(k) implies exists|j: int|
        0 <= j < keys.len() && keys[j] == k by {
        assert(keys.contains(k));
    }
}

fn manhattan_exec(a: Position, b: Position) -> (d: i64)
    ensures
        d == manhattan(a, b),
{
    let dx: i64 = if a.x >= b.x { a.x as i64 - b.x as i64 } else { b.x as i64 - a.x as i64 };
    let dy: i64 = if a.y >= b.y { a.y as i64 - b.y as i64 } else { b.y as i64 - a.y as i64 };
    dx + dy
}

/// The known deposit nearest to `start` that a collector there can head for; the keys of
/// `known_resources` are tried in their order, the first of several equally near ones wins.
pub fn closest_reachable_resource(
    start: Position,
    known_resources: &PositionMap,
    map: &TileMap,
    occupied: &PositionSet,
) -> (target: Option<Position>)
    requires
        map.wf(),
    ensures
        target == nearest_target(*map, occupied@, start, known_resources.key_seq()),
{
    let keys = known_resources.keys();
    let mut best: Option<usize> = None;
    let mut best_dist: i64 = 0;
    let mut i: usize = 0;
    while i < keys.len()
        invariant
            map.wf(),
            i <= keys@.len(),
            keys@ == known_resources.key_seq(),
            best is None <==> nearest_index(*map, occupied@, start, keys@, i as int) is None,
            best matches Some(j) ==> nearest_index(*map, occupied@, start, keys@, i as int) == Some(
                j as int,
            ) && j < i && best_dist == manhattan(start, keys@[j as int]),
        decreases keys@.len() - i,
    {
        let candidate = keys[i];
        let d = manhattan_exec(start, candidate);
        assert(nearest_index(*map, occupied@, start, keys@, i + 1) == {
            let prev = nearest_index(*map, occupied@, start, keys@, i as int);
            if worth_heading(*map, occupied@, start, candidate) && (prev is None || manhattan(start, candidate) < manhattan(start, keys@[prev->0])) {
                Some(i as int)
            } else {
                prev
            }
        });
        let closer = match best {
            None => true,
            Some(_) => d < best_dist,
        };
        if closer {
            let worth = candidate == start || bfs_next_step(&start, &candidate, map, occupied).is_some();
            if worth {
                best = Some(i);
                best_dist = d;
            }
        }
        i = i + 1;
    }
    match best {
        Some(j) => Some(keys[j]),
        None => None,
    }
}

} // verus!
