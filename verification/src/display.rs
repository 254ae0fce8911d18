//! What the interface shows: symbols of the map, counters and recent events.
use vstd::prelude::*;
use vstd::string::*;

use crate::config::{EVENT_LOG_LINES, MAP_HEIGHT, MAP_WIDTH};
use crate::map::TileMap;
use crate::model::{Position, Resource, ResourceKind, Robot, RobotType, Tile};
use crate::robot::{harvested_tile, tile_replaced};
use crate::text::{nat_text, push_nat};

verus! {

/// Width taken by the two vertical borders of a bordered panel.
pub const PANEL_BORDER_SIZE: u16 = 2;

/// Minimum width of the information panel next to the map.
pub const INFO_PANEL_MIN_WIDTH: u16 = 32;

/// Height of the information panel when it goes below the map.
pub const INFO_PANEL_FALLBACK_HEIGHT: u16 = 9;

/// How many robots of `robots` have the role `robot_type`.
pub open spec fn count_of(robots: Seq<Robot>, robot_type: RobotType) -> nat
    decreases robots.len(),
{
    if robots.len() == 0 {
        0
    } else {
        count_of(robots.drop_last(), robot_type) + if robots.last().robot_type == robot_type {
            1nat
        } else {
            0nat
        }
    }
}

proof fn lemma_count_of_bounded(robots: Seq<Robot>, robot_type: RobotType)
    ensures
        count_of(robots, robot_type) <= robots.len(),
    decreases robots.len(),
{
    if robots.len() > 0 {
        lemma_count_of_bounded(robots.drop_last(), robot_type);
    }
}

/// The count of robots of a role is the number of robots of the list that have that role.
pub proof fn lemma_count_of_is_filter(robots: Seq<Robot>, robot_type: RobotType)
    ensures
        count_of(robots, robot_type) == robots.filter(|r: Robot| r.robot_type == robot_type).len(),
    decreases robots.len(),
{
    reveal(Seq::filter);
    if robots.len() > 0 {
        lemma_count_of_is_filter(robots.drop_last(), robot_type);
    }
}

/// Number of robots of `robots` that have the role `robot_type`.
pub fn count_robots(robots: &[Robot], robot_type: RobotType) -> (n: usize)
    ensures
        n == count_of(robots@, robot_type),
{
    let mut n: usize = 0;
    let mut i: usize = 0;
    while i < robots.len()
        invariant
            i <= robots@.len(),
            n == count_of(robots@.subrange(0, i as int), robot_type),
        decreases robots@.len() - i,
    {
        proof {
            let next = robots@.subrange(0, i + 1);
            assert(next.drop_last() =~= robots@.subrange(0, i as int));
            lemma_count_of_bounded(robots@.subrange(0, i as int), robot_type);
        }
        if robots[i].robot_type == robot_type {
            n = n + 1;
        }
        i = i + 1;
    }
    assert(robots@.subrange(0, robots@.len() as int) =~= robots@);
    n
}

/// Units held by a tile.
pub open spec fn tile_units(t: Tile) -> int {
    match t.resource {
        Some(r) => r.quantity as int,
        None => 0,
    }
}

/// Units held by the tiles of a row.
pub open spec fn row_units(row: Seq<Tile>) -> int
    decreases row.len(),
{
    if row.len() == 0 {
        0
    } else {
        row_units(row.drop_last()) + tile_units(row.last())
    }
}

/// Units held by the tiles of the rows.
pub open spec fn rows_units(rows: Seq<Seq<Tile>>) -> int
    decreases rows.len(),
{
    if rows.len() == 0 {
        0
    } else {
        rows_units(rows.drop_last()) + row_units(rows.last())
    }
}

/// The rows of the map, as sequences of tiles.
pub open spec fn rows_of(m: TileMap) -> Seq<Seq<Tile>> {
    m.tiles@.map_values(|row: Vec<Tile>| row@)
}

/// Units left on the whole map.
pub open spec fn total_units(m: TileMap) -> int {
    rows_units(rows_of(m))
}

proof fn lemma_row_units_nonneg(row: Seq<Tile>)
    ensures
        row_units(row) >= 0,
    decreases row.len(),
{
    if row.len() > 0 {
        lemma_row_units_nonneg(row.drop_last());
    }
}

proof fn lemma_rows_units_prefix(rows: Seq<Seq<Tile>>, k: int)
    requires
        0 <= k <= rows.len(),
    ensures
        rows_units(rows.subrange(0, k)) <= rows_units(rows),
    decreases rows.len() - k,
{
    if k < rows.len() {
        lemma_rows_units_prefix(rows, k + 1);
        assert(rows.subrange(0, k + 1).drop_last() =~= rows.subrange(0, k));
        lemma_row_units_nonneg(rows[k]);
    } else {
        assert(rows.subrange(0, k) =~= rows);
    }
}

proof fn lemma_row_units_prefix(row: Seq<Tile>, k: int)
    requires
        0 <= k <= row.len(),
    ensures
        row_units(row.subrange(0, k)) <= row_units(row),
    decreases row.len() - k,
{
    if k < row.len() {
        lemma_row_units_prefix(row, k + 1);
        assert(row.subrange(0, k + 1).drop_last() =~= row.subrange(0, k));
    } else {
        assert(row.subrange(0, k) =~= row);
    }
}

proof fn lemma_row_units_update(row: Seq<Tile>, x: int, t: Tile)
    requires
        0 <= x < row.len(),
    ensures
        row_units(row.update(x, t)) == row_units(row) - tile_units(row[x]) + tile_units(t),
    decreases row.len(),
{
    if x < row.len() - 1 {
        lemma_row_units_update(row.drop_last(), x, t);
        assert(row.update(x, t).drop_last() =~= row.drop_last().update(x, t));
    } else {
        assert(row.update(x, t).drop_last() =~= row.drop_last());
    }
}

proof fn lemma_rows_units_update(rows: Seq<Seq<Tile>>, y: int, row: Seq<Tile>)
    requires
        0 <= y < rows.len(),
    ensures
        rows_units(rows.update(y, row)) == rows_units(rows) - row_units(rows[y]) + row_units(row),
    decreases rows.len(),
{
    if y < rows.len() - 1 {
        lemma_rows_units_update(rows.drop_last(), y, row);
        assert(rows.update(y, row).drop_last() =~= rows.drop_last().update(y, row));
    } else {
        assert(rows.update(y, row).drop_last() =~= rows.drop_last());
    }
}

/// Harvesting a tile holding a deposit takes exactly one unit off the map.
pub proof fn lemma_harvest_takes_one_unit(m1: TileMap, m2: TileMap, p: Position)
    requires
        m1.wf(),
        m1.contains(p),
        m1.tile(p).resource matches Some(res) && res.quantity > 0,
        tile_replaced(m1, m2, p, harvested_tile(m1.tile(p))),
    ensures
        total_units(m2) == total_units(m1) - 1,
{
    let x = p.x as int;
    let y = p.y as int;
    let rows1 = rows_of(m1);
    let rows2 = rows_of(m2);
    let new_tile = harvested_tile(m1.tile(p));
    let new_row = rows1[y].update(x, new_tile);
    assert(new_row =~= rows2[y]) by {
        assert forall|i: int| 0 <= i < new_row.len() implies new_row[i] == rows2[y][i] by {
            assert(m2.cell(i, y) == rows2[y][i]);
        }
    }
    assert(rows1.update(y, new_row) =~= rows2) by {
        assert forall|j: int| 0 <= j < rows2.len() && j != y implies rows1[j] =~= rows2[j] by {
            assert forall|i: int| 0 <= i < rows1[j].len() implies rows1[j][i] == rows2[j][i] by {
                assert(m2.cell(i, j) == rows2[j][i]);
                assert(m1.cell(i, j) == rows1[j][i]);
            }
        }
    }
    lemma_row_units_update(rows1[y], x, new_tile);
    lemma_rows_units_update(rows1, y, new_row);
}

/// Units of resource left on the whole map.
pub fn remaining_resource_units(map: &TileMap) -> (units: u32)
    requires
        map.wf(),
        total_units(*map) <= u32::MAX,
    ensures
        units == total_units(*map),
{
    let ghost rows = rows_of(*map);
    let mut total: u32 = 0;
    let mut y: usize = 0;
    while y < map.tiles.len()
        invariant
            map.wf(),
            rows == rows_of(*map),
            total_units(*map) <= u32::MAX,
            y <= map.tiles@.len(),
            total == rows_units(rows.subrange(0, y as int)),
        decreases map.tiles@.len() - y,
    {
        let row = &map.tiles[y];
        let ghost before = total as int;
        proof {
            assert(rows.subrange(0, y + 1).drop_last() =~= rows.subrange(0, y as int));
            lemma_rows_units_prefix(rows, y + 1);
            assert(rows[y as int] == row@);
        }
        let mut x: usize = 0;
        while x < row.len()
            invariant
                x <= row@.len(),
                total == before + row_units(row@.subrange(0, x as int)),
                before + row_units(row@) <= u32::MAX,
            decreases row@.len() - x,
        {
            proof {
                assert(row@.subrange(0, x + 1).drop_last() =~= row@.subrange(0, x as int));
                lemma_row_units_prefix(row@, x + 1);
                lemma_row_units_nonneg(row@.subrange(0, x as int));
            }
            if let Some(resource) = row[x].resource {
                total = total + resource.quantity;
            }
            x = x + 1;
        }
        assert(row@.subrange(0, row@.len() as int) =~= row@);
        y = y + 1;
    }
    assert(rows.subrange(0, rows.len() as int) =~= rows);
    total
}

/// Units of resource left on the whole map, or `None` when they do not fit in a `u32`.
pub fn checked_resource_units(map: &TileMap) -> (units: Option<u32>)
    requires
        map.wf(),
    ensures
        units == if total_units(*map) <= u32::MAX {
            Some(total_units(*map) as u32)
        } else {
            None::<u32>
        },
{
    let ghost rows = rows_of(*map);
    let mut total: u32 = 0;
    let mut y: usize = 0;
    while y < map.tiles.len()
        invariant
            map.wf(),
            rows == rows_of(*map),
            y <= map.tiles@.len(),
            total == rows_units(rows.subrange(0, y as int)),
        decreases map.tiles@.len() - y,
    {
        let row = &map.tiles[y];
        let ghost before = total as int;
        proof {
            assert(rows.subrange(0, y + 1).drop_last() =~= rows.subrange(0, y as int));
            assert(rows[y as int] == row@);
        }
        let mut x: usize = 0;
        while x < row.len()
            invariant
                x <= row@.len(),
                total == before + row_units(row@.subrange(0, x as int)),
                rows_units(rows.subrange(0, y + 1)) == before + row_units(row@),
                rows == rows_of(*map),
                y < rows.len(),
            decreases row@.len() - x,
        {
            proof {
                assert(row@.subrange(0, x + 1).drop_last() =~= row@.subrange(0, x as int));
            }
            if let Some(resource) = row[x].resource {
                match total.checked_add(resource.quantity) {
                    Some(t) => {
                        total = t;
                    },
                    None => {
                        proof {
                            lemma_row_units_prefix(row@, x + 1);
                            lemma_rows_units_prefix(rows, y + 1);
                        }
                        return None;
                    },
                }
            }
            x = x + 1;
        }
        assert(row@.subrange(0, row@.len() as int) =~= row@);
        y = y + 1;
    }
    assert(rows.subrange(0, rows.len() as int) =~= rows);
    Some(total)
}

/// The index of the first robot of `robots`, from index `i` on, that stands on `pos`.
pub open spec fn first_robot_at(robots: Seq<Robot>, pos: Position, i: int) -> Option<int>
    decreases robots.len() - i,
{
    if i < 0 || i >= robots.len() {
        None
    } else if robots[i].position == pos {
        Some(i)
    } else {
        first_robot_at(robots, pos, i + 1)
    }
}

/// The character showing the cell `pos`: the first robot standing there (`x` for a scout,
/// `o` for a collector), else the base (`#`), an obstacle (`O`), a deposit (`E` or `C`), or
/// a free tile (`.`).
pub open spec fn symbol_of(m: TileMap, base_position: Position, robots: Seq<Robot>, pos: Position) -> char {
    match first_robot_at(robots, pos, 0) {
        Some(i) => match robots[i].robot_type {
            RobotType::Scout => 'x',
            RobotType::Collector => 'o',
        },
        None => if pos == base_position {
            '#'
        } else if m.tile(pos).obstacle {
            'O'
        } else {
            match m.tile(pos).resource {
                Some(r) => match r.kind {
                    ResourceKind::Energy => 'E',
                    ResourceKind::Crystal => 'C',
                },
                None => '.',
            }
        },
    }
}

/// How a cell is drawn: a scout standing there shows as `x` and a collector as `o`, the
/// first robot of the list standing there deciding; with no robot there, the base shows as
/// `#`, then an obstacle as `O`, an energy deposit as `E`, a crystal deposit as `C`, and
/// any other cell as `.`.
pub proof fn lemma_symbol_meaning(m: TileMap, base_position: Position, robots: Seq<Robot>, pos: Position)
    ensures
        forall|i: int|
            0 <= i < robots.len() && robots[i].position == pos && (forall|j: int|
                0 <= j < i ==> #[trigger] robots[j].position != pos) ==> symbol_of(m, base_position, robots, pos)
                == if robots[i].robot_type == RobotType::Scout {
                'x'
            } else {
                'o'
            },
        (forall|j: int| 0 <= j < robots.len() ==> #[trigger] robots[j].position != pos) ==> symbol_of(
            m,
            base_position,
            robots,
            pos,
        ) == if pos == base_position {
            '#'
        } else if m.tile(pos).obstacle {
            'O'
        } else if m.tile(pos).resource == None::<Resource> {
            '.'
        } else if m.tile(pos).resource->0.kind == ResourceKind::Energy {
            'E'
        } else {
            'C'
        },
{
    assert forall|i: int|
        0 <= i < robots.len() && robots[i].position == pos && (forall|j: int|
            0 <= j < i ==> #[trigger] robots[j].position != pos) implies first_robot_at(robots, pos, 0) == Some(i) by {
        lemma_first_robot_at(robots, pos, 0, i);
    }
    if forall|j: int| 0 <= j < robots.len() ==> #[trigger] robots[j].position != pos {
        lemma_no_robot_at(robots, pos, 0);
    }
}

proof fn lemma_first_robot_at(robots: Seq<Robot>, pos: Position, k: int, i: int)
    requires
        0 <= k <= i < robots.len(),
        robots[i].position == pos,
        forall|j: int| k <= j < i ==> #[trigger] robots[j].position != pos,
    ensures
        first_robot_at(robots, pos, k) == Some(i),
    decreases i - k,
{
    if k < i {
        lemma_first_robot_at(robots, pos, k + 1, i);
    }
}

proof fn lemma_no_robot_at(robots: Seq<Robot>, pos: Position, k: int)
    requires
        0 <= k,
        forall|j: int| k <= j < robots.len() ==> #[trigger] robots[j].position != pos,
    ensures
        first_robot_at(robots, pos, k) is None,
    decreases robots.len() - k,
{
    if k < robots.len() {
        lemma_no_robot_at(robots, pos, k + 1);
    }
}

/// The character showing the cell `pos`; the map is read only when no robot stands there and
/// it is not the base.
pub fn tile_symbol(map: &TileMap, base_position: Position, robots: &[Robot], pos: Position) -> (c: char)
    requires
        map.wf(),
        first_robot_at(robots@, pos, 0) is None && pos != base_position ==> map.contains(pos),
    ensures
        c == symbol_of(*map, base_position, robots@, pos),
{
    let mut i: usize = 0;
    while i < robots.len()
        invariant
            i <= robots@.len(),
            first_robot_at(robots@, pos, 0) == first_robot_at(robots@, pos, i as int),
        decreases robots@.len() - i,
    {
        if robots[i].position == pos {
            return match robots[i].robot_type {
                RobotType::Scout => 'x',
                RobotType::Collector => 'o',
            };
        }
        i = i + 1;
    }
    if pos == base_position {
        return '#';
    }
    let tile = map.tiles[pos.y as usize][pos.x as usize];
    if tile.obstacle {
        'O'
    } else {
        match tile.resource {
            Some(r) => match r.kind {
                ResourceKind::Energy => 'E',
                ResourceKind::Crystal => 'C',
            },
            None => '.',
        }
    }
}

/// Whether an area of `width` by `height` cells holds the map panel and the information
/// panel side by side.
pub fn fits_side_by_side(width: u16, height: u16) -> (fits: bool)
    ensures
        fits == (width >= MAP_WIDTH + PANEL_BORDER_SIZE + INFO_PANEL_MIN_WIDTH && height >= MAP_HEIGHT
            + PANEL_BORDER_SIZE),
{
    let map_panel_width: u16 = MAP_WIDTH as u16 + PANEL_BORDER_SIZE;
    let map_panel_height: u16 = MAP_HEIGHT as u16 + PANEL_BORDER_SIZE;
    width >= map_panel_width + INFO_PANEL_MIN_WIDTH && height >= map_panel_height
}

/// The most recent events first, at most `EVENT_LOG_LINES` of them.
pub fn recent_events(events: &[String]) -> (recent: Vec<String>)
    ensures
        recent@.len() == if events@.len() < EVENT_LOG_LINES {
            events@.len() as int
        } else {
            EVENT_LOG_LINES as int
        },
        forall|i: int| 0 <= i < recent@.len() ==> #[trigger] recent@[i]@ == events@[events@.len() - 1 - i]@,
{
    let mut recent: Vec<String> = Vec::new();
    let n = events.len();
    while recent.len() < EVENT_LOG_LINES && recent.len() < n
        invariant
            n == events@.len(),
            recent@.len() <= EVENT_LOG_LINES,
            recent@.len() <= n,
            forall|i: int| 0 <= i < recent@.len() ==> #[trigger] recent@[i]@ == events@[n - 1 - i]@,
        decreases n - recent@.len(),
    {
        let k = recent.len();
        let line = events[n - 1 - k].clone();
        recent.push(line);
    }
    recent
}

/// `prefix`, the decimal notation of `n`, then `suffix`.
pub fn labelled_number(prefix: &str, n: u64, suffix: &str) -> (text: String)
    ensures
        text@ == prefix@ + nat_text(n as nat) + suffix@,
{
    let mut text = String::new();
    text.append(prefix);
    push_nat(&mut text, n);
    text.append(suffix);
    assert(text@ =~= prefix@ + nat_text(n as nat) + suffix@);
    text
}

} // verus!
