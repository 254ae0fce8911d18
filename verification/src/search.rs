//! Breadth-first search on the grid: which way to go to reach a target.
use vstd::prelude::*;
use vstd::set_lib::*;

use crate::collections::PositionSet;
use crate::grid::{
    adjacent, chosen_first_step, covered, dir_of, enterable, lemma_adjacent_direction, lemma_direction_adjacent,
    lemma_within_last_step, lemma_within_monotone, lemma_within_prepend, lemma_within_step, neighbor,
    no_first_step, reachable, shortest_first_step, starts_shortest_way, within,
};
use crate::map::TileMap;
use crate::model::Position;

verus! {

/// Each discovered cell but the start was discovered from an earlier cell next to it,
/// may be entered, and lies one step further than that cell.
pub open spec fn linked(
    m: TileMap,
    occ: Set<Position>,
    target: Position,
    q: Seq<Position>,
    par: Seq<usize>,
    dist: Seq<nat>,
) -> bool {
    forall|i: int|
        1 <= i < q.len() ==> {
            &&& (#[trigger] par[i] as int) < i
            &&& adjacent(q[par[i] as int], q[i])
            &&& enterable(m, occ, target, q[i])
            &&& dist[i] == dist[par[i] as int] + 1
        }
}

/// Distances never decrease along the queue.
pub open spec fn sorted(dist: Seq<nat>) -> bool {
    forall|i: int, j: int| 0 <= i <= j < dist.len() ==> #[trigger] dist[i] <= #[trigger] dist[j]
}

/// Every enterable neighbour of an expanded cell has been discovered.
pub open spec fn closed_before(
    m: TileMap,
    occ: Set<Position>,
    target: Position,
    q: Seq<Position>,
    head: int,
) -> bool {
    forall|i: int, w: Position|
        0 <= i < head && #[trigger] adjacent(q[i], w) && enterable(m, occ, target, w) ==> q.contains(w)
}

/// A discovered neighbour of an expanded cell lies at most one step further than it.
pub open spec fn tight_before(
    m: TileMap,
    occ: Set<Position>,
    target: Position,
    q: Seq<Position>,
    dist: Seq<nat>,
    head: int,
) -> bool {
    forall|i: int, j: int|
        0 <= i < head && 0 <= j < q.len() && #[trigger] adjacent(q[i], q[j]) && enterable(
            m,
            occ,
            target,
            q[j],
        ) ==> dist[j] <= dist[i] + 1
}

/// Each discovered cell can be reached from the start in its recorded number of steps.
pub open spec fn all_within(
    m: TileMap,
    occ: Set<Position>,
    target: Position,
    start: Position,
    q: Seq<Position>,
    dist: Seq<nat>,
) -> bool {
    forall|i: int| 0 <= i < q.len() ==> within(m, occ, target, start, #[trigger] dist[i], q[i])
}

/// No expanded cell is the target.
pub open spec fn target_unseen_before(q: Seq<Position>, head: int, target: Position) -> bool {
    forall|i: int| 0 <= i < head ==> #[trigger] q[i] != target
}

/// The bookkeeping of the search: `q` lists the discovered cells in discovery order,
/// `par[i]` is the index of the cell from which `q[i]` was discovered, `dist[i]` is the
/// number of steps from `start` to `q[i]`, and the cells before `head` have been expanded.
pub open spec fn search_inv(
    m: TileMap,
    occ: Set<Position>,
    start: Position,
    target: Position,
    q: Seq<Position>,
    par: Seq<usize>,
    dist: Seq<nat>,
    head: int,
) -> bool {
    &&& q.len() == par.len()
    &&& q.len() == dist.len()
    &&& 1 <= q.len()
    &&& 0 <= head <= q.len()
    &&& q[0] == start
    &&& dist[0] == 0
    &&& q.no_duplicates()
    &&& linked(m, occ, target, q, par, dist)
    &&& sorted(dist)
    &&& head < q.len() ==> dist[q.len() - 1] <= dist[head] + 1
    &&& closed_before(m, occ, target, q, head)
    &&& tight_before(m, occ, target, q, dist, head)
    &&& all_within(m, occ, target, start, q, dist)
    &&& target_unseen_before(q, head, target)
}

/// The order in which the search discovers cells: every cell but the start was discovered
/// by an expanded cell, in the order of expansion, by the first expanded cell next to it; and
/// the neighbours of the start were discovered in the order up, down, left, right.
pub open spec fn order_inv(
    m: TileMap,
    occ: Set<Position>,
    target: Position,
    q: Seq<Position>,
    par: Seq<usize>,
    dist: Seq<nat>,
    head: int,
) -> bool {
    &&& forall|j: int| 1 <= j < q.len() ==> (#[trigger] par[j] as int) < head
    &&& forall|i: int, j: int| 1 <= i <= j < q.len() ==> #[trigger] par[i] <= #[trigger] par[j]
    &&& forall|i: int, j: int|
        0 <= i < head && 1 <= j < q.len() && #[trigger] adjacent(q[i], q[j]) && enterable(m, occ, target, q[j])
            ==> par[j] <= i
    &&& forall|i: int, j: int|
        1 <= i < j < q.len() && dist[i] == 1 && dist[j] == 1 ==> #[trigger] dir_of(q[0], q[i]) < #[trigger] dir_of(
            q[0],
            q[j],
        )
}

/// The cells of `q` from index `n` on lie next to `current` in increasing directions.
pub open spec fn fresh_in_order(q: Seq<Position>, n: int, current: Position) -> bool {
    forall|i: int, j: int| n <= i < j < q.len() ==> #[trigger] dir_of(current, q[i]) < #[trigger] dir_of(current, q[j])
}

/// The index of the neighbour of the start from which the cell at index `i` descends.
pub open spec fn first_ancestor(par: Seq<usize>, i: int) -> int
    decreases i,
{
    if 1 <= i < par.len() && par[i] != 0 && (par[i] as int) < i {
        first_ancestor(par, par[i] as int)
    } else {
        i
    }
}

/// Only the start lies at distance zero.
proof fn lemma_only_start_at_zero(
    m: TileMap,
    occ: Set<Position>,
    target: Position,
    q: Seq<Position>,
    par: Seq<usize>,
    dist: Seq<nat>,
    i: int,
)
    requires
        linked(m, occ, target, q, par, dist),
        q.len() == dist.len(),
        1 <= i < q.len(),
    ensures
        dist[i] >= 1,
{
    assert((par[i] as int) < i);
}

/// Two cells at the same distance keep the order of their first ancestors.
proof fn lemma_first_ancestor_monotone(
    m: TileMap,
    occ: Set<Position>,
    start: Position,
    target: Position,
    q: Seq<Position>,
    par: Seq<usize>,
    dist: Seq<nat>,
    head: int,
    i: int,
    j: int,
)
    requires
        search_inv(m, occ, start, target, q, par, dist, head),
        order_inv(m, occ, target, q, par, dist, head),
        1 <= i <= j < q.len(),
        dist[i] == dist[j],
    ensures
        first_ancestor(par, i) <= first_ancestor(par, j),
        1 <= first_ancestor(par, i) < q.len(),
        dist[first_ancestor(par, i)] == 1,
    decreases j,
{
    assert((par[i] as int) < i && (par[j] as int) < j);
    assert(par[i] <= par[j]);
    if par[i] == 0 {
        assert(dist[i] == 1);
        if par[j] != 0 {
            lemma_only_start_at_zero(m, occ, target, q, par, dist, par[j] as int);
        }
    } else {
        lemma_only_start_at_zero(m, occ, target, q, par, dist, par[i] as int);
        lemma_first_ancestor_monotone(m, occ, start, target, q, par, dist, head, par[i] as int, par[j] as int);
    }
}

/// A cell `v` at distance `k + 1` from the start, reachable in `k` steps from the neighbour
/// `q[jn]` of the start, descends from a neighbour of the start discovered no later than it.
proof fn lemma_first_ancestor_bound(
    m: TileMap,
    occ: Set<Position>,
    start: Position,
    target: Position,
    q: Seq<Position>,
    par: Seq<usize>,
    dist: Seq<nat>,
    head: int,
    jn: int,
    k: nat,
    v: Position,
) -> (j: int)
    requires
        search_inv(m, occ, start, target, q, par, dist, head),
        order_inv(m, occ, target, q, par, dist, head),
        head < q.len(),
        1 <= jn < q.len(),
        dist[jn] == 1,
        within(m, occ, target, q[jn], k, v),
        k + 1 <= dist[head],
        !within(m, occ, target, start, k, v),
    ensures
        1 <= j < q.len(),
        q[j] == v,
        dist[j] == k + 1,
        first_ancestor(par, j) <= jn,
    decreases k,
{
    let n = q[jn];
    assert(par[jn] == 0) by {
        if par[jn] != 0 {
            lemma_only_start_at_zero(m, occ, target, q, par, dist, par[jn] as int);
        }
    }
    assert(adjacent(start, n)) by {
        assert(adjacent(q[par[jn] as int], q[jn]));
    }
    assert(enterable(m, occ, target, n));
    lemma_within_prepend(m, occ, target, start, n, k, v);
    let jv = lemma_layers(m, occ, start, target, q, par, dist, head, k + 1, v);
    if dist[jv] <= k {
        assert(within(m, occ, target, start, dist[jv], q[jv]));
        lemma_within_monotone(m, occ, target, start, dist[jv], k, v);
    }
    assert(jv != 0);
    if k == 0 {
        assert(v == n);
        assert(jv == jn) by {
            assert(q[jv] == q[jn]);
        }
        jv
    } else {
        let km = (k - 1) as nat;
        if within(m, occ, target, n, km, v) {
            lemma_within_prepend(m, occ, target, start, n, km, v);
            assert(false);
        }
        let u = lemma_within_last_step(m, occ, target, n, km, v);
        if within(m, occ, target, start, km, u) {
            lemma_within_step(m, occ, target, start, km, u, v);
            assert(false);
        }
        let ju = lemma_first_ancestor_bound(m, occ, start, target, q, par, dist, head, jn, km, u);
        if ju >= head {
            assert(dist[head] <= dist[ju]);
        }
        assert(adjacent(q[ju], q[jv]));
        assert(par[jv] as int <= ju);
        let p = par[jv] as int;
        assert(p < jv);
        assert(dist[p] == k);
        lemma_only_start_at_zero(m, occ, target, q, par, dist, ju);
        assert(p != 0) by {
            if p == 0 {
                assert(dist[0] == 0);
            }
        }
        lemma_first_ancestor_monotone(m, occ, start, target, q, par, dist, head, p, ju);
        jv
    }
}

/// Whether the cell `p` of the grid `g` is marked.
pub open spec fn marked(g: Seq<Vec<bool>>, p: Position) -> bool {
    g[p.y as int]@[p.x as int]
}

/// `g` has the shape of the map, and marks exactly the cells of the map listed in `q`.
pub open spec fn marks_queue(m: TileMap, g: Seq<Vec<bool>>, q: Seq<Position>) -> bool {
    &&& g.len() == m.height
    &&& forall|y: int| 0 <= y < m.height ==> #[trigger] g[y]@.len() == m.width
    &&& forall|p: Position| m.contains(p) ==> (#[trigger] marked(g, p) <==> q.contains(p))
}

proof fn lemma_code_injective(x1: int, y1: int, x2: int, y2: int, w: int)
    requires
        0 <= x1 < w,
        0 <= x2 < w,
        0 <= y1,
        0 <= y2,
        y1 * w + x1 == y2 * w + x2,
    ensures
        x1 == x2,
        y1 == y2,
{
    if y1 < y2 {
        assert((y2 - y1) * w >= w) by (nonlinear_arith)
            requires
                y2 - y1 >= 1,
                w > 0,
        ;
        assert(y2 * w - y1 * w == (y2 - y1) * w) by (nonlinear_arith);
    } else if y2 < y1 {
        assert((y1 - y2) * w >= w) by (nonlinear_arith)
            requires
                y1 - y2 >= 1,
                w > 0,
        ;
        assert(y1 * w - y2 * w == (y1 - y2) * w) by (nonlinear_arith);
    }
}

proof fn lemma_code_range(x: int, y: int, w: int, h: int)
    requires
        0 <= x < w,
        0 <= y < h,
    ensures
        0 <= y * w + x < w * h,
{
    assert(0 <= y * w) by (nonlinear_arith)
        requires
            0 <= y,
            0 <= w,
    ;
    assert(y * w + w <= h * w) by (nonlinear_arith)
        requires
            y + 1 <= h,
            0 <= w,
    ;
    assert(h * w == w * h) by (nonlinear_arith);
}

/// Distinct cells of the map are at most as many as the cells of the map.
proof fn lemma_cells_bounded(m: TileMap, s: Seq<Position>)
    requires
        s.no_duplicates(),
        forall|i: int| 0 <= i < s.len() ==> m.contains(#[trigger] s[i]),
    ensures
        s.len() <= m.width * m.height,
{
    let w = m.width as int;
    let h = m.height as int;
    let codes = s.map_values(|p: Position| p.y * w + p.x);
    assert forall|i: int, j: int|
        0 <= i < codes.len() && 0 <= j < codes.len() && i != j implies codes[i] != codes[j] by {
        if codes[i] == codes[j] {
            lemma_code_injective(s[i].x as int, s[i].y as int, s[j].x as int, s[j].y as int, w);
        }
    }
    assert forall|i: int| 0 <= i < codes.len() implies set_int_range(0, w * h).contains(
        #[trigger] codes[i],
    ) by {
        lemma_code_range(s[i].x as int, s[i].y as int, w, h);
    }
    codes.unique_seq_to_set();
    assert(w * h >= 0) by (nonlinear_arith)
        requires
            w >= 0,
            h >= 0,
    ;
    lemma_int_range(0, w * h);
    assert(codes.to_set().subset_of(set_int_range(0, w * h)));
    lemma_len_subset(codes.to_set(), set_int_range(0, w * h));
}

/// The queue of the search never holds more cells than the map, plus the start.
proof fn lemma_queue_bounded(
    m: TileMap,
    occ: Set<Position>,
    start: Position,
    target: Position,
    q: Seq<Position>,
    par: Seq<usize>,
    dist: Seq<nat>,
    head: int,
)
    requires
        search_inv(m, occ, start, target, q, par, dist, head),
    ensures
        q.len() <= m.width * m.height + 1,
{
    let rest = q.subrange(1, q.len() as int);
    assert forall|i: int| 0 <= i < rest.len() implies m.contains(#[trigger] rest[i]) by {
        assert(rest[i] == q[i + 1]);
        assert(par[i + 1] < i + 1);
    }
    assert(rest.no_duplicates()) by {
        assert forall|i: int, j: int|
            0 <= i < rest.len() && 0 <= j < rest.len() && i != j implies rest[i] != rest[j] by {
            assert(rest[i] == q[i + 1] && rest[j] == q[j + 1]);
        }
    }
    lemma_cells_bounded(m, rest);
}

/// Every cell at distance at most `k` from the start has been discovered, at distance at
/// most `k`, as long as `k` does not exceed the distance of the next cell to expand.
proof fn lemma_layers(
    m: TileMap,
    occ: Set<Position>,
    start: Position,
    target: Position,
    q: Seq<Position>,
    par: Seq<usize>,
    dist: Seq<nat>,
    head: int,
    k: nat,
    w: Position,
) -> (j: int)
    requires
        search_inv(m, occ, start, target, q, par, dist, head),
        head < q.len(),
        k <= dist[head],
        within(m, occ, target, start, k, w),
    ensures
        0 <= j < q.len(),
        q[j] == w,
        dist[j] <= k,
    decreases k,
{
    if k == 0 {
        0
    } else {
        let km = (k - 1) as nat;
        if within(m, occ, target, start, km, w) {
            lemma_layers(m, occ, start, target, q, par, dist, head, km, w)
        } else {
            let u = lemma_within_last_step(m, occ, target, start, km, w);
            let ju = lemma_layers(m, occ, start, target, q, par, dist, head, km, u);
            if ju >= head {
                assert(dist[head] <= dist[ju]);
            }
            assert(adjacent(q[ju], w));
            assert(q.contains(w));
            let jw = choose|jw: int| 0 <= jw < q.len() && q[jw] == w;
            assert(adjacent(q[ju], q[jw]));
            jw
        }
    }
}

/// Once every discovered cell has been expanded, every reachable cell has been discovered.
proof fn lemma_exhausted(
    m: TileMap,
    occ: Set<Position>,
    start: Position,
    target: Position,
    q: Seq<Position>,
    par: Seq<usize>,
    dist: Seq<nat>,
    k: nat,
    w: Position,
)
    requires
        search_inv(m, occ, start, target, q, par, dist, q.len() as int),
        within(m, occ, target, start, k, w),
    ensures
        q.contains(w),
    decreases k,
{
    if k == 0 {
        assert(q[0] == w);
    } else {
        let km = (k - 1) as nat;
        if within(m, occ, target, start, km, w) {
            lemma_exhausted(m, occ, start, target, q, par, dist, km, w);
        } else {
            let u = lemma_within_last_step(m, occ, target, start, km, w);
            lemma_exhausted(m, occ, start, target, q, par, dist, km, u);
            let ju = choose|ju: int| 0 <= ju < q.len() && q[ju] == u;
            assert(adjacent(q[ju], w));
        }
    }
}

/// The cells of `q` from index `n` on were discovered from `current`, the cell at `head`,
/// one step further than it (`dh` steps from the start).
pub open spec fn fresh_cells(
    m: TileMap,
    occ: Set<Position>,
    target: Position,
    q: Seq<Position>,
    par: Seq<usize>,
    dist: Seq<nat>,
    n: int,
    head: int,
    dh: nat,
    current: Position,
) -> bool {
    forall|j: int|
        n <= j < q.len() ==> {
            &&& #[trigger] par[j] == head
            &&& dist[j] == dh + 1
            &&& adjacent(current, q[j])
            &&& enterable(m, occ, target, q[j])
        }
}

proof fn lemma_fresh_push(
    m: TileMap,
    occ: Set<Position>,
    target: Position,
    q: Seq<Position>,
    par: Seq<usize>,
    dist: Seq<nat>,
    n: int,
    head: usize,
    dh: nat,
    current: Position,
    next: Position,
)
    requires
        fresh_cells(m, occ, target, q, par, dist, n, head as int, dh, current),
        0 <= n,
        q.len() == par.len(),
        q.len() == dist.len(),
        adjacent(current, next),
        enterable(m, occ, target, next),
    ensures
        fresh_cells(
            m,
            occ,
            target,
            q.push(next),
            par.push(head),
            dist.push(dh + 1),
            n,
            head as int,
            dh,
            current,
        ),
{
    let q2 = q.push(next);
    let p2 = par.push(head);
    let d2 = dist.push(dh + 1);
    assert forall|j: int| n <= j < q2.len() implies {
        &&& #[trigger] p2[j] == head
        &&& d2[j] == dh + 1
        &&& adjacent(current, q2[j])
        &&& enterable(m, occ, target, q2[j])
    } by {
        if j < q.len() {
            assert(p2[j] == par[j] && q2[j] == q[j] && d2[j] == dist[j]);
        }
    }
}

/// `q2`, `par2`, `dist2` extend `q`, `par`, `dist` with cells discovered from the cell at
/// `head`, one step further than it, and list every enterable neighbour of that cell.
pub open spec fn expansion_of(
    m: TileMap,
    occ: Set<Position>,
    target: Position,
    q: Seq<Position>,
    par: Seq<usize>,
    dist: Seq<nat>,
    head: int,
    q2: Seq<Position>,
    par2: Seq<usize>,
    dist2: Seq<nat>,
) -> bool {
    &&& q2.len() == par2.len()
    &&& q2.len() == dist2.len()
    &&& q.len() <= q2.len()
    &&& q2.subrange(0, q.len() as int) == q
    &&& par2.subrange(0, q.len() as int) == par
    &&& dist2.subrange(0, q.len() as int) == dist
    &&& q2.no_duplicates()
    &&& fresh_cells(m, occ, target, q2, par2, dist2, q.len() as int, head, dist[head], q[head])
    &&& forall|d: int| 0 <= d < 4 ==> covered(m, occ, target, q2, #[trigger] neighbor(q[head], d))
}

proof fn lemma_expansion_prefix(
    m: TileMap,
    occ: Set<Position>,
    target: Position,
    q: Seq<Position>,
    par: Seq<usize>,
    dist: Seq<nat>,
    head: int,
    q2: Seq<Position>,
    par2: Seq<usize>,
    dist2: Seq<nat>,
)
    requires
        expansion_of(m, occ, target, q, par, dist, head, q2, par2, dist2),
    ensures
        forall|i: int|
            0 <= i < q.len() ==> #[trigger] q2[i] == q[i] && par2[i] == par[i] && dist2[i] == dist[i],
{
    let n = q.len() as int;
    assert forall|i: int| 0 <= i < n implies #[trigger] q2[i] == q[i] && par2[i] == par[i]
        && dist2[i] == dist[i] by {
        assert(q2.subrange(0, n)[i] == q2[i]);
        assert(par2.subrange(0, n)[i] == par2[i]);
        assert(dist2.subrange(0, n)[i] == dist2[i]);
    }
}

proof fn lemma_expansion_order(
    m: TileMap,
    occ: Set<Position>,
    start: Position,
    target: Position,
    q: Seq<Position>,
    par: Seq<usize>,
    dist: Seq<nat>,
    head: int,
    q2: Seq<Position>,
    par2: Seq<usize>,
    dist2: Seq<nat>,
)
    requires
        search_inv(m, occ, start, target, q, par, dist, head),
        head < q.len(),
        expansion_of(m, occ, target, q, par, dist, head, q2, par2, dist2),
    ensures
        sorted(dist2),
        head + 1 < q2.len() ==> dist2[q2.len() - 1] <= dist2[head + 1] + 1,
        linked(m, occ, target, q2, par2, dist2),
{
    let n = q.len() as int;
    lemma_expansion_prefix(m, occ, target, q, par, dist, head, q2, par2, dist2);
    assert(dist[n - 1] <= dist[head] + 1);
    assert forall|i: int, j: int| 0 <= i <= j < q2.len() implies #[trigger] dist2[i]
        <= #[trigger] dist2[j] by {
        if j >= n && i < n {
            assert(par2[j] == head);
            assert(dist[i] <= dist[n - 1]);
            assert(dist2[i] == dist[i]);
        } else if i >= n {
            assert(par2[i] == head && par2[j] == head);
        } else {
            assert(dist2[i] == dist[i] && dist2[j] == dist[j]);
            assert(dist[i] <= dist[j]);
        }
    }
    if head + 1 < q2.len() {
        assert(dist2[head] <= dist2[head + 1]);
        if q2.len() > n {
            assert(par2[q2.len() - 1] == head);
        } else {
            assert(dist2[head] == dist[head]);
        }
    }
    assert forall|i: int| 1 <= i < q2.len() implies {
        &&& (#[trigger] par2[i] as int) < i
        &&& adjacent(q2[par2[i] as int], q2[i])
        &&& enterable(m, occ, target, q2[i])
        &&& dist2[i] == dist2[par2[i] as int] + 1
    } by {
        if i < n {
            assert(par[i] == par2[i]);
            assert((par[i] as int) < i);
        } else {
            assert(par2[i] == head);
        }
    }
}

proof fn lemma_expansion_closure(
    m: TileMap,
    occ: Set<Position>,
    start: Position,
    target: Position,
    q: Seq<Position>,
    par: Seq<usize>,
    dist: Seq<nat>,
    head: int,
    q2: Seq<Position>,
    par2: Seq<usize>,
    dist2: Seq<nat>,
)
    requires
        search_inv(m, occ, start, target, q, par, dist, head),
        head < q.len(),
        expansion_of(m, occ, target, q, par, dist, head, q2, par2, dist2),
    ensures
        closed_before(m, occ, target, q2, head + 1),
{
    lemma_expansion_prefix(m, occ, target, q, par, dist, head, q2, par2, dist2);
    assert forall|i: int, w: Position|
        0 <= i < head + 1 && #[trigger] adjacent(q2[i], w) && enterable(m, occ, target, w)
            implies q2.contains(w) by {
        assert(q2[i] == q[i]);
        if i < head {
            assert(q.contains(w));
            let k = choose|k: int| 0 <= k < q.len() && q[k] == w;
            assert(q2[k] == w);
        } else {
            let d = lemma_adjacent_direction(q[head], w);
            assert(covered(m, occ, target, q2, neighbor(q[head], d)));
        }
    }
}

proof fn lemma_expansion_target(
    m: TileMap,
    occ: Set<Position>,
    start: Position,
    target: Position,
    q: Seq<Position>,
    par: Seq<usize>,
    dist: Seq<nat>,
    head: int,
    q2: Seq<Position>,
    par2: Seq<usize>,
    dist2: Seq<nat>,
)
    requires
        target_unseen_before(q, head, target),
        1 <= q.len(),
        0 <= head < q.len(),
        q[0] == start,
        dist[0] == 0,
        q[head] != target,
        expansion_of(m, occ, target, q, par, dist, head, q2, par2, dist2),
    ensures
        target_unseen_before(q2, head + 1, target),
        q2[0] == start,
        dist2[0] == 0,
{
    lemma_expansion_prefix(m, occ, target, q, par, dist, head, q2, par2, dist2);
    assert forall|i: int| 0 <= i < head + 1 implies #[trigger] q2[i] != target by {
        assert(q2[i] == q[i]);
    }
    assert(q2[0] == q[0]);
}


proof fn lemma_expansion_distances(
    m: TileMap,
    occ: Set<Position>,
    start: Position,
    target: Position,
    q: Seq<Position>,
    par: Seq<usize>,
    dist: Seq<nat>,
    head: int,
    q2: Seq<Position>,
    par2: Seq<usize>,
    dist2: Seq<nat>,
)
    requires
        search_inv(m, occ, start, target, q, par, dist, head),
        head < q.len(),
        expansion_of(m, occ, target, q, par, dist, head, q2, par2, dist2),
    ensures
        tight_before(m, occ, target, q2, dist2, head + 1),
        all_within(m, occ, target, start, q2, dist2),
{
    let n = q.len() as int;
    lemma_expansion_prefix(m, occ, target, q, par, dist, head, q2, par2, dist2);
    assert(dist[n - 1] <= dist[head] + 1);
    assert forall|i: int, j: int|
        0 <= i < head + 1 && 0 <= j < q2.len() && #[trigger] adjacent(q2[i], q2[j]) && enterable(
            m,
            occ,
            target,
            q2[j],
        ) implies dist2[j] <= dist2[i] + 1 by {
        assert(q2[i] == q[i] && dist2[i] == dist[i]);
        if j >= n {
            assert(par2[j] == head);
            if i < head {
                assert(adjacent(q[i], q2[j]));
                assert(q.contains(q2[j]));
                let k = choose|k: int| 0 <= k < q.len() && q[k] == q2[j];
                assert(q2[k] == q2[j]);
            }
        } else {
            assert(q2[j] == q[j] && dist2[j] == dist[j]);
            if i < head {
                assert(adjacent(q[i], q[j]));
            } else {
                assert(dist[j] <= dist[n - 1]);
            }
        }
    }
    assert forall|i: int| 0 <= i < q2.len() implies within(
        m,
        occ,
        target,
        start,
        #[trigger] dist2[i],
        q2[i],
    ) by {
        if i >= n {
            assert(par2[i] == head);
            assert(within(m, occ, target, start, dist[head], q[head]));
            lemma_within_step(m, occ, target, start, dist[head], q[head], q2[i]);
        } else {
            assert(q2[i] == q[i] && dist2[i] == dist[i]);
        }
    }
}

/// After the expansion of the cell at `head`, the bookkeeping holds one cell further.
#[verifier::spinoff_prover]
proof fn lemma_expanded(
    m: TileMap,
    occ: Set<Position>,
    start: Position,
    target: Position,
    q: Seq<Position>,
    par: Seq<usize>,
    dist: Seq<nat>,
    head: int,
    q2: Seq<Position>,
    par2: Seq<usize>,
    dist2: Seq<nat>,
)
    requires
        search_inv(m, occ, start, target, q, par, dist, head),
        head < q.len(),
        q[head] != target,
        expansion_of(m, occ, target, q, par, dist, head, q2, par2, dist2),
    ensures
        search_inv(m, occ, start, target, q2, par2, dist2, head + 1),
{
    lemma_expansion_prefix(m, occ, target, q, par, dist, head, q2, par2, dist2);
    lemma_expansion_order(m, occ, start, target, q, par, dist, head, q2, par2, dist2);
    lemma_expansion_closure(m, occ, start, target, q, par, dist, head, q2, par2, dist2);
    lemma_expansion_distances(m, occ, start, target, q, par, dist, head, q2, par2, dist2);
    lemma_expansion_target(m, occ, start, target, q, par, dist, head, q2, par2, dist2);
}

/// After the expansion of the cell at `head`, whose new neighbours were discovered in the
/// order of their directions, the order of discovery holds one cell further.
#[verifier::spinoff_prover]
proof fn lemma_expanded_order(
    m: TileMap,
    occ: Set<Position>,
    start: Position,
    target: Position,
    q: Seq<Position>,
    par: Seq<usize>,
    dist: Seq<nat>,
    head: int,
    q2: Seq<Position>,
    par2: Seq<usize>,
    dist2: Seq<nat>,
)
    requires
        search_inv(m, occ, start, target, q, par, dist, head),
        order_inv(m, occ, target, q, par, dist, head),
        head < q.len(),
        expansion_of(m, occ, target, q, par, dist, head, q2, par2, dist2),
        fresh_in_order(q2, q.len() as int, q[head]),
    ensures
        order_inv(m, occ, target, q2, par2, dist2, head + 1),
{
    let n = q.len() as int;
    lemma_expansion_prefix(m, occ, target, q, par, dist, head, q2, par2, dist2);
    assert forall|j: int| 1 <= j < q2.len() implies (#[trigger] par2[j] as int) < head + 1 by {
        if j < n {
            assert(par2[j] == par[j]);
        } else {
            assert(par2[j] == head);
        }
    }
    assert forall|i: int, j: int| 1 <= i <= j < q2.len() implies #[trigger] par2[i] <= #[trigger] par2[j] by {
        if j < n {
            assert(par2[i] == par[i] && par2[j] == par[j]);
        } else if i < n {
            assert(par2[i] == par[i] && par2[j] == head);
            assert((par[i] as int) < head);
        } else {
            assert(par2[i] == head && par2[j] == head);
        }
    }
    assert forall|i: int, j: int|
        0 <= i < head + 1 && 1 <= j < q2.len() && #[trigger] adjacent(q2[i], q2[j]) && enterable(
            m,
            occ,
            target,
            q2[j],
        ) implies par2[j] <= i by {
        assert(q2[i] == q[i]);
        if j < n {
            assert(q2[j] == q[j] && par2[j] == par[j]);
            if i == head {
                assert((par[j] as int) < head);
            }
        } else {
            assert(par2[j] == head);
            if i < head {
                assert(q.contains(q2[j]));
                let k = choose|k: int| 0 <= k < q.len() && q[k] == q2[j];
                assert(q2[k] == q2[j]);
            }
        }
    }
    assert forall|i: int, j: int|
        1 <= i < j < q2.len() && dist2[i] == 1 && dist2[j] == 1 implies #[trigger] dir_of(q2[0], q2[i])
        < #[trigger] dir_of(q2[0], q2[j]) by {
        assert(q2[0] == q[0]);
        if j < n {
            assert(q2[i] == q[i] && q2[j] == q[j] && dist2[i] == dist[i] && dist2[j] == dist[j]);
        } else {
            assert(par2[j] == head && dist2[j] == dist[head] + 1);
            assert(dist[head] == 0);
            if head >= 1 {
                lemma_only_start_at_zero(m, occ, target, q, par, dist, head);
            }
            assert(head == 0);
            if i < n {
                assert((par[i] as int) < head);
            }
        }
    }
}

/// A `width` by `height` grid with no cell marked.
fn blank_marks(width: usize, height: usize) -> (g: Vec<Vec<bool>>)
    ensures
        g@.len() == height,
        forall|y: int| 0 <= y < height ==> #[trigger] g@[y]@.len() == width,
        forall|y: int, x: int| 0 <= y < height && 0 <= x < width ==> !#[trigger] g@[y]@[x],
{
    let mut g: Vec<Vec<bool>> = Vec::new();
    let mut y: usize = 0;
    while y < height
        invariant
            y <= height,
            g@.len() == y,
            forall|j: int| 0 <= j < y ==> #[trigger] g@[j]@.len() == width,
            forall|j: int, x: int| 0 <= j < y && 0 <= x < width ==> !#[trigger] g@[j]@[x],
        decreases height - y,
    {
        let mut row: Vec<bool> = Vec::new();
        let mut x: usize = 0;
        while x < width
            invariant
                x <= width,
                row@.len() == x,
                forall|i: int| 0 <= i < x ==> !#[trigger] row@[i],
            decreases width - x,
        {
            row.push(false);
            x = x + 1;
        }
        g.push(row);
        y = y + 1;
    }
    g
}

/// Marks the cell `p` of the map in `g`.
fn mark(m: &TileMap, g: &mut Vec<Vec<bool>>, p: Position)
    requires
        m.contains(p),
        old(g)@.len() == m.height,
        forall|y: int| 0 <= y < m.height ==> #[trigger] old(g)@[y]@.len() == m.width,
    ensures
        final(g)@.len() == m.height,
        forall|y: int| 0 <= y < m.height ==> #[trigger] final(g)@[y]@.len() == m.width,
        forall|r: Position|
            m.contains(r) ==> #[trigger] marked(final(g)@, r) == (marked(old(g)@, r) || r == p),
{
    let y = p.y as usize;
    let x = p.x as usize;
    g[y][x] = true;
    assert forall|r: Position| m.contains(r) implies #[trigger] marked(g@, r) == (marked(old(g)@, r)
        || r == p) by {
        if r.y == p.y && r.x != p.x {
            assert(g@[y as int]@[r.x as int] == old(g)@[y as int]@[r.x as int]);
        }
    }
}

/// The cell next to `p` in direction `d`, when it can be represented.
fn neighbor_at(p: Position, d: usize) -> (r: Option<Position>)
    requires
        d < 4,
    ensures
        r == neighbor(p, d as int),
{
    let dx: i32 = if d == 2 {
        -1
    } else if d == 3 {
        1
    } else {
        0
    };
    let dy: i32 = if d == 0 {
        -1
    } else if d == 1 {
        1
    } else {
        0
    };
    match (p.x.checked_add(dx), p.y.checked_add(dy)) {
        (Some(x), Some(y)) => Some(Position { x, y }),
        _ => None,
    }
}

/// Discovers the enterable neighbours of the cell at `head` that were not discovered yet.
fn expand(
    map: &TileMap,
    occupied: &PositionSet,
    start: Ghost<Position>,
    target: &Position,
    queue: &mut Vec<Position>,
    parents: &mut Vec<usize>,
    marks: &mut Vec<Vec<bool>>,
    head: usize,
    dist: Ghost<Seq<nat>>,
) -> (dist2: Ghost<Seq<nat>>)
    requires
        map.wf(),
        search_inv(*map, occupied@, start@, *target, old(queue)@, old(parents)@, dist@, head as int),
        order_inv(*map, occupied@, *target, old(queue)@, old(parents)@, dist@, head as int),
        head < old(queue)@.len(),
        old(queue)@[head as int] != *target,
        marks_queue(*map, old(marks)@, old(queue)@),
    ensures
        search_inv(
            *map,
            occupied@,
            start@,
            *target,
            final(queue)@,
            final(parents)@,
            dist2@,
            head + 1,
        ),
        order_inv(*map, occupied@, *target, final(queue)@, final(parents)@, dist2@, head + 1),
        marks_queue(*map, final(marks)@, final(queue)@),
        old(queue)@.len() <= final(queue)@.len(),
{
    let ghost q0 = queue@;
    let ghost p0 = parents@;
    let ghost mut d2 = dist@;
    let ghost n = q0.len();
    let current = queue[head];
    proof {
        assert(queue@.subrange(0, n as int) =~= q0);
        assert(parents@.subrange(0, n as int) =~= p0);
        assert(d2.subrange(0, n as int) =~= dist@);
    }
    let mut d: usize = 0;
    while d < 4
        invariant
            map.wf(),
            0 <= d <= 4,
            head < n,
            n <= queue@.len(),
            current == q0[head as int],
            search_inv(*map, occupied@, start@, *target, q0, p0, dist@, head as int),
            order_inv(*map, occupied@, *target, q0, p0, dist@, head as int),
            fresh_in_order(queue@, n as int, current),
            forall|j: int| n <= j < queue@.len() ==> #[trigger] dir_of(current, queue@[j]) < d,
            queue@.len() == parents@.len(),
            queue@.len() == d2.len(),
            queue@.subrange(0, n as int) == q0,
            parents@.subrange(0, n as int) == p0,
            d2.subrange(0, n as int) == dist@,
            queue@.no_duplicates(),
            fresh_cells(*map, occupied@, *target, queue@, parents@, d2, n as int, head as int, dist@[head as int], current),
            forall|e: int|
                0 <= e < d ==> covered(*map, occupied@, *target, queue@, #[trigger] neighbor(current, e)),
            marks_queue(*map, marks@, queue@),
        decreases 4 - d,
    {
        proof {
            lemma_direction_adjacent(current, d as int);
        }
        if let Some(next) = neighbor_at(current, d) {
            assert(adjacent(current, next));
            if map.is_walkable(&next) && (!occupied.contains(&next) || next == *target) {
                let already = marks[next.y as usize][next.x as usize];
                assert(already == marked(marks@, next));
                if !already {
                    let ghost qa = queue@;
                    let ghost pa = parents@;
                    let ghost da = d2;
                    mark(map, marks, next);
                    queue.push(next);
                    parents.push(head);
                    proof {
                        d2 = d2.push(dist@[head as int] + 1);
                        assert(parents@ == pa.push(head));
                        assert(queue@ == qa.push(next));
                        assert(queue@.subrange(0, n as int) =~= qa.subrange(0, n as int));
                        assert(parents@.subrange(0, n as int) =~= p0);
                        assert(d2.subrange(0, n as int) =~= dist@);
                        lemma_fresh_push(*map, occupied@, *target, qa, pa, da, n as int, head, dist@[head as int], current, next);
                        assert(dir_of(current, next) == d);
                        assert forall|i: int, j: int| n <= i < j < queue@.len() implies #[trigger] dir_of(current, queue@[i])
                            < #[trigger] dir_of(current, queue@[j]) by {
                            assert(queue@[i] == qa[i]);
                            if j < qa.len() {
                                assert(queue@[j] == qa[j]);
                            }
                        }
                        assert forall|j: int| n <= j < queue@.len() implies #[trigger] dir_of(current, queue@[j]) < d + 1 by {
                            if j < qa.len() {
                                assert(queue@[j] == qa[j]);
                            }
                        }
                        assert(queue@.no_duplicates()) by {
                            assert forall|i: int, j: int|
                                0 <= i < queue@.len() && 0 <= j < queue@.len() && i != j implies queue@[i]
                                != queue@[j] by {
                                if i == qa.len() && j < qa.len() && queue@[i] == queue@[j] {
                                    assert(qa.contains(next));
                                } else if j == qa.len() && i < qa.len() && queue@[i] == queue@[j] {
                                    assert(qa.contains(next));
                                }
                            }
                        }
                        assert forall|r: Position| map.contains(r) implies (#[trigger] marked(
                            marks@,
                            r,
                        ) <==> queue@.contains(r)) by {
                            if qa.contains(r) {
                                let k = choose|k: int| 0 <= k < qa.len() && qa[k] == r;
                                assert(queue@[k] == r);
                            }
                            if queue@.contains(r) && r != next {
                                let k = choose|k: int| 0 <= k < queue@.len() && queue@[k] == r;
                                assert(qa[k] == r);
                            }
                            if r == next {
                                assert(queue@[qa.len() as int] == next);
                            }
                        }
                        assert forall|e: int|
                            0 <= e < d + 1 implies covered(*map, occupied@, *target, queue@, #[trigger] neighbor(current, e)) by {
                            if neighbor(current, e) is Some && enterable(
                                *map,
                                occupied@,
                                *target,
                                neighbor(current, e)->0,
                            ) {
                                let w = neighbor(current, e)->0;
                                if e < d {
                                    assert(covered(*map, occupied@, *target, qa, neighbor(current, e)));
                                    let k = choose|k: int| 0 <= k < qa.len() && qa[k] == w;
                                    assert(queue@[k] == w);
                                } else {
                                    assert(queue@[qa.len() as int] == w);
                                }
                            }
                        }
                    }
                } else {
                    assert(queue@.contains(next));
                }
            }
        }
        d = d + 1;
    }
    proof {
        lemma_expanded(
            *map,
            occupied@,
            start@,
            *target,
            q0,
            p0,
            dist@,
            head as int,
            queue@,
            parents@,
            d2,
        );
        lemma_expanded_order(
            *map,
            occupied@,
            start@,
            *target,
            q0,
            p0,
            dist@,
            head as int,
            queue@,
            parents@,
            d2,
        );
    }
    Ghost(d2)
}

/// The first step to take from `start` to get to `target` by a shortest way through free,
/// unblocked cells of the map; `None` when there is no such step.
///
/// Cells taken by the robots of `occupied` are avoided, the target excepted; a step into a
/// taken cell is never proposed. When shortest ways begin in several directions, the step is
/// taken in the first of them in the order up, down, left, right.
pub fn bfs_next_step(
    start: &Position,
    target: &Position,
    map: &TileMap,
    occupied: &PositionSet,
) -> (next: Option<Position>)
    requires
        map.wf(),
    ensures
        next is None <==> no_first_step(*map, occupied@, *start, *target),
        next matches Some(n) ==> chosen_first_step(*map, occupied@, *start, *target, n)
            && !occupied@.contains(n),
{
    let mut queue: Vec<Position> = Vec::new();
    let mut parents: Vec<usize> = Vec::new();
    let mut marks = blank_marks(map.width, map.height);
    queue.push(*start);
    parents.push(0);
    let ghost mut dist: Seq<nat> = seq![0nat];
    if map.in_bounds(start) {
        mark(map, &mut marks, *start);
    }
    proof {
        assert forall|r: Position| map.contains(r) implies (#[trigger] marked(marks@, r)
            <==> queue@.contains(r)) by {
            if r == *start {
                assert(queue@[0] == r);
            }
        }
        assert(within(*map, occupied@, *target, *start, 0, *start));
    }
    let mut head: usize = 0;
    while head < queue.len() && queue[head] != *target
        invariant
            map.wf(),
            search_inv(*map, occupied@, *start, *target, queue@, parents@, dist, head as int),
            order_inv(*map, occupied@, *target, queue@, parents@, dist, head as int),
            marks_queue(*map, marks@, queue@),
        decreases 2 * (map.width * map.height + 1) - queue@.len() - head,
    {
        proof {
            lemma_queue_bounded(*map, occupied@, *start, *target, queue@, parents@, dist, head as int);
        }
        let ghost len_before = queue@.len();
        let dist2 = expand(
            map,
            occupied,
            Ghost(*start),
            target,
            &mut queue,
            &mut parents,
            &mut marks,
            head,
            Ghost(dist),
        );
        proof {
            dist = dist2@;
        }
        head = head + 1;
        proof {
            lemma_queue_bounded(*map, occupied@, *start, *target, queue@, parents@, dist, head as int);
        }
    }
    if head >= queue.len() {
        proof {
            if reachable(*map, occupied@, *target, *start, *target) {
                let k = choose|k: nat| within(*map, occupied@, *target, *start, k, *target);
                lemma_exhausted(*map, occupied@, *start, *target, queue@, parents@, dist, k, *target);
                let j = choose|j: int| 0 <= j < queue@.len() && queue@[j] == *target;
                assert(queue@[j] != *target);
            }
        }
        return None;
    }
    if head == 0 {
        return None;
    }
    let ghost h = head as int;
    let ghost total = dist[h];
    proof {
        assert(parents@[h] < h);
        assert(within(*map, occupied@, *target, *start, total, *target));
        if within(*map, occupied@, *target, *start, (total - 1) as nat, *target) {
            let j = lemma_layers(
                *map,
                occupied@,
                *start,
                *target,
                queue@,
                parents@,
                dist,
                h,
                (total - 1) as nat,
                *target,
            );
            assert(queue@[j] == queue@[h]);
        }
    }
    let mut cur = head;
    while parents[cur] != 0
        invariant
            0 < cur <= head,
            head < queue@.len(),
            h == head,
            search_inv(*map, occupied@, *start, *target, queue@, parents@, dist, head as int),
            order_inv(*map, occupied@, *target, queue@, parents@, dist, head as int),
            first_ancestor(parents@, cur as int) == first_ancestor(parents@, head as int),
            dist[cur as int] <= total,
            within(*map, occupied@, *target, queue@[cur as int], (total - dist[cur as int]) as nat, *target),
        decreases cur,
    {
        let p = parents[cur];
        proof {
            assert(parents@[cur as int] < cur);
            lemma_within_prepend(
                *map,
                occupied@,
                *target,
                queue@[p as int],
                queue@[cur as int],
                (total - dist[cur as int]) as nat,
                *target,
            );
        }
        cur = p;
    }
    let step = queue[cur];
    proof {
        assert(parents@[cur as int] < cur);
        assert(dist[cur as int] == 1);
        assert(adjacent(*start, step));
        if occupied@.contains(*target) && adjacent(*start, *target) {
            lemma_within_step(*map, occupied@, *target, *start, 0, *start, *target);
            if total > 1 {
                lemma_within_monotone(*map, occupied@, *target, *start, 1, (total - 1) as nat, *target);
            }
            assert(total == 1);
            assert(cur == head);
        }
        assert(*target != *start) by {
            assert(queue@[0] == *start);
        }
        let k = (total - 1) as nat;
        assert(within(*map, occupied@, *target, step, k, *target));
        assert(shortest_first_step(*map, occupied@, *start, *target, step));
        assert(first_ancestor(parents@, cur as int) == cur as int);
        assert forall|e: int| 0 <= e < dir_of(*start, step) implies !#[trigger] starts_shortest_way(
            *map,
            occupied@,
            *start,
            *target,
            e,
        ) by {
            if starts_shortest_way(*map, occupied@, *start, *target, e) {
                let nb = neighbor(*start, e)->0;
                lemma_direction_adjacent(*start, e);
                let kn = choose|kn: nat|
                    {
                        &&& within(*map, occupied@, *target, *start, kn + 1, *target)
                        &&& !within(*map, occupied@, *target, *start, kn, *target)
                        &&& adjacent(*start, nb)
                        &&& enterable(*map, occupied@, *target, nb)
                        &&& #[trigger] within(*map, occupied@, *target, nb, kn, *target)
                    };
                if kn < k {
                    lemma_within_monotone(*map, occupied@, *target, *start, kn + 1, k, *target);
                } else if kn > k {
                    lemma_within_monotone(*map, occupied@, *target, *start, total, kn, *target);
                }
                assert(kn == k);
                assert(within(*map, occupied@, *target, *start, 0, *start));
                lemma_within_step(*map, occupied@, *target, *start, 0, *start, nb);
                let jn = lemma_layers(*map, occupied@, *start, *target, queue@, parents@, dist, h, 1, nb);
                assert(jn != 0) by {
                    if jn == 0 {
                        assert(queue@[0] == *start);
                    }
                }
                lemma_only_start_at_zero(*map, occupied@, *target, queue@, parents@, dist, jn);
                let jt = lemma_first_ancestor_bound(
                    *map,
                    occupied@,
                    *start,
                    *target,
                    queue@,
                    parents@,
                    dist,
                    h,
                    jn,
                    k,
                    *target,
                );
                assert(jt == h) by {
                    assert(queue@[jt] == queue@[h]);
                }
                assert(cur as int <= jn);
                assert(queue@[0] == *start);
                if cur as int == jn {
                    assert(dir_of(*start, step) == e);
                } else {
                    assert(dir_of(queue@[0], queue@[cur as int]) < dir_of(queue@[0], queue@[jn]));
                }
            }
        }
        assert(chosen_first_step(*map, occupied@, *start, *target, step));
    }
    if occupied.contains(&step) {
        None
    } else {
        Some(step)
    }
}

} // verus!
