//! The grid seen as a graph: which cells a robot may step into, and how far
//! one cell is from another.
use vstd::prelude::*;

use crate::map::TileMap;
use crate::model::Position;

verus! {

/// Horizontal offset of direction `d`; directions are, in order: up, down, left, right.
pub open spec fn dir_dx(d: int) -> int {
    if d == 2 {
        -1
    } else if d == 3 {
        1
    } else {
        0
    }
}

/// Vertical offset of direction `d`; directions are, in order: up, down, left, right.
pub open spec fn dir_dy(d: int) -> int {
    if d == 0 {
        -1
    } else if d == 1 {
        1
    } else {
        0
    }
}

/// `v` can be stored in an `i32`.
pub open spec fn fits_i32(v: int) -> bool {
    i32::MIN <= v <= i32::MAX
}

/// The cell next to `p` in direction `d`, when its coordinates can be represented.
pub open spec fn neighbor(p: Position, d: int) -> Option<Position> {
    let x = p.x + dir_dx(d);
    let y = p.y + dir_dy(d);
    if fits_i32(x) && fits_i32(y) {
        Some(Position { x: x as i32, y: y as i32 })
    } else {
        None
    }
}

/// `a` and `b` share a side.
pub open spec fn adjacent(a: Position, b: Position) -> bool {
    ||| a.x == b.x && (a.y - b.y == 1 || b.y - a.y == 1)
    ||| a.y == b.y && (a.x - b.x == 1 || b.x - a.x == 1)
}

/// A robot heading for `target` may step into `p`: the cell is on the map, free of
/// obstacles, and not taken by another robot (the target itself excepted).
pub open spec fn enterable(m: TileMap, occupied: Set<Position>, target: Position, p: Position) -> bool {
    m.walkable(p) && (!occupied.contains(p) || p == target)
}

/// `v` can be reached from `src` in at most `k` steps into enterable cells.
pub open spec fn within(
    m: TileMap,
    occupied: Set<Position>,
    target: Position,
    src: Position,
    k: nat,
    v: Position,
) -> bool
    decreases k,
{
    if k == 0 {
        v == src
    } else {
        let km = (k - 1) as nat;
        ||| within(m, occupied, target, src, km, v)
        ||| enterable(m, occupied, target, v) && {
            ||| neighbor(v, 0) matches Some(u) && within(m, occupied, target, src, km, u)
            ||| neighbor(v, 1) matches Some(u) && within(m, occupied, target, src, km, u)
            ||| neighbor(v, 2) matches Some(u) && within(m, occupied, target, src, km, u)
            ||| neighbor(v, 3) matches Some(u) && within(m, occupied, target, src, km, u)
        }
    }
}

/// `v` can be reached from `src` at all.
pub open spec fn reachable(
    m: TileMap,
    occupied: Set<Position>,
    target: Position,
    src: Position,
    v: Position,
) -> bool {
    exists|k: nat| within(m, occupied, target, src, k, v)
}

/// There is no step to take from `start` towards `target`: the robot is already there, the
/// target cannot be reached, or the target is next to it but taken.
pub open spec fn no_first_step(
    m: TileMap,
    occupied: Set<Position>,
    start: Position,
    target: Position,
) -> bool {
    ||| start == target
    ||| !reachable(m, occupied, target, start, target)
    ||| occupied.contains(target) && adjacent(start, target)
}

/// `next` is the first cell of a shortest way from `start` to `target`.
pub open spec fn shortest_first_step(
    m: TileMap,
    occupied: Set<Position>,
    start: Position,
    target: Position,
    next: Position,
) -> bool {
    exists|k: nat|
        {
            &&& within(m, occupied, target, start, k + 1, target)
            &&& !within(m, occupied, target, start, k, target)
            &&& adjacent(start, next)
            &&& enterable(m, occupied, target, next)
            &&& #[trigger] within(m, occupied, target, next, k, target)
        }
}

/// The direction (up, down, left, right) in which `b` lies next to `a`, for adjacent cells.
pub open spec fn dir_of(a: Position, b: Position) -> int {
    if b.x == a.x && b.y == a.y - 1 {
        0
    } else if b.x == a.x && b.y == a.y + 1 {
        1
    } else if b.y == a.y && b.x == a.x - 1 {
        2
    } else {
        3
    }
}

/// A shortest way from `start` to `target` begins in direction `e`.
pub open spec fn starts_shortest_way(
    m: TileMap,
    occupied: Set<Position>,
    start: Position,
    target: Position,
    e: int,
) -> bool {
    neighbor(start, e) matches Some(n) && shortest_first_step(m, occupied, start, target, n)
}

/// `next` is the first cell of a shortest way from `start` to `target`, taken in the first
/// direction, in the order up, down, left, right, in which such a way begins.
pub open spec fn chosen_first_step(
    m: TileMap,
    occupied: Set<Position>,
    start: Position,
    target: Position,
    next: Position,
) -> bool {
    &&& shortest_first_step(m, occupied, start, target, next)
    &&& forall|e: int| 0 <= e < dir_of(start, next) ==> !#[trigger] starts_shortest_way(m, occupied, start, target, e)
}

/// If the neighbour `o` exists and may be entered, it is listed in `q`.
pub open spec fn covered(
    m: TileMap,
    occupied: Set<Position>,
    target: Position,
    q: Seq<Position>,
    o: Option<Position>,
) -> bool {
    match o {
        Some(w) => enterable(m, occupied, target, w) ==> q.contains(w),
        None => true,
    }
}

/// One more step: `v` is enterable and next to a cell reachable in `k` steps.
pub proof fn lemma_within_step(
    m: TileMap,
    occupied: Set<Position>,
    target: Position,
    src: Position,
    k: nat,
    u: Position,
    v: Position,
)
    requires
        within(m, occupied, target, src, k, u),
        adjacent(u, v),
        enterable(m, occupied, target, v),
    ensures
        within(m, occupied, target, src, k + 1, v),
{
    let d = lemma_adjacent_direction(v, u);
    assert(neighbor(v, d) == Some(u));
}

/// A cell reachable in `k + 1` steps but not in `k` is next to a cell reachable in `k` steps.
pub proof fn lemma_within_last_step(
    m: TileMap,
    occupied: Set<Position>,
    target: Position,
    src: Position,
    k: nat,
    v: Position,
) -> (u: Position)
    requires
        within(m, occupied, target, src, k + 1, v),
        !within(m, occupied, target, src, k, v),
    ensures
        enterable(m, occupied, target, v),
        adjacent(u, v),
        within(m, occupied, target, src, k, u),
{
    let k1 = (k + 1) as nat;
    assert(((k1 - 1) as nat) == k);
    let n0 = neighbor(v, 0);
    let n1 = neighbor(v, 1);
    let n2 = neighbor(v, 2);
    let n3 = neighbor(v, 3);
    let u = if n0 is Some && within(m, occupied, target, src, k, n0->0) {
        n0->0
    } else if n1 is Some && within(m, occupied, target, src, k, n1->0) {
        n1->0
    } else if n2 is Some && within(m, occupied, target, src, k, n2->0) {
        n2->0
    } else {
        n3->0
    };
    lemma_direction_adjacent(v, 0);
    lemma_direction_adjacent(v, 1);
    lemma_direction_adjacent(v, 2);
    lemma_direction_adjacent(v, 3);
    u
}

/// A way can only get longer.
pub proof fn lemma_within_monotone(
    m: TileMap,
    occupied: Set<Position>,
    target: Position,
    src: Position,
    k: nat,
    k2: nat,
    v: Position,
)
    requires
        within(m, occupied, target, src, k, v),
        k <= k2,
    ensures
        within(m, occupied, target, src, k2, v),
    decreases k2,
{
    if k < k2 {
        lemma_within_monotone(m, occupied, target, src, k, (k2 - 1) as nat, v);
    }
}

/// A way from `a` extends to a way from a neighbour `a0` of `a`, one step longer.
pub proof fn lemma_within_prepend(
    m: TileMap,
    occupied: Set<Position>,
    target: Position,
    a0: Position,
    a: Position,
    k: nat,
    v: Position,
)
    requires
        within(m, occupied, target, a, k, v),
        adjacent(a0, a),
        enterable(m, occupied, target, a),
    ensures
        within(m, occupied, target, a0, k + 1, v),
    decreases k,
{
    if k == 0 {
        assert(v == a);
        assert(within(m, occupied, target, a0, 0, a0));
        lemma_within_step(m, occupied, target, a0, 0, a0, v);
    } else {
        let km = (k - 1) as nat;
        if within(m, occupied, target, a, km, v) {
            lemma_within_prepend(m, occupied, target, a0, a, km, v);
            lemma_within_monotone(m, occupied, target, a0, k, k + 1, v);
        } else {
            let u = lemma_within_last_step(m, occupied, target, a, km, v);
            lemma_within_prepend(m, occupied, target, a0, a, km, u);
            lemma_within_step(m, occupied, target, a0, k, u, v);
        }
    }
}

/// The cells adjacent to `u` are exactly its neighbours in the four directions.
pub proof fn lemma_adjacent_direction(u: Position, w: Position) -> (d: int)
    requires
        adjacent(u, w),
    ensures
        0 <= d < 4,
        neighbor(u, d) == Some(w),
{
    if w.y == u.y - 1 {
        0
    } else if w.y == u.y + 1 {
        1
    } else if w.x == u.x - 1 {
        2
    } else {
        3
    }
}

/// A neighbour in one of the four directions is adjacent, and lies in that direction.
pub proof fn lemma_direction_adjacent(u: Position, d: int)
    requires
        0 <= d < 4,
    ensures
        neighbor(u, d) is Some ==> adjacent(u, neighbor(u, d)->0) && dir_of(u, neighbor(u, d)->0) == d,
{
}

} // verus!
