use vstd::prelude::*;

use crate::model::{Position, Resource, Tile};

verus! {

/// The grid: `tiles[y][x]` is the tile at column `x` of row `y`.
pub struct TileMap {
    pub height: usize,
    pub width: usize,
    pub tiles: Vec<Vec<Tile>>,
}

impl TileMap {
    /// The grid has `height` rows of `width` tiles each.
    pub open spec fn wf(&self) -> bool {
        &&& self.tiles@.len() == self.height
        &&& forall|y: int| 0 <= y < self.height ==> #[trigger] self.tiles@[y]@.len() == self.width
    }

    /// `p` lies on the grid.
    pub open spec fn contains(&self, p: Position) -> bool {
        0 <= p.x < self.width && 0 <= p.y < self.height
    }

    /// The tile at column `x` of row `y`.
    pub open spec fn cell(&self, x: int, y: int) -> Tile {
        self.tiles@[y]@[x]
    }

    /// The tile at `p`, for a position on the grid.
    pub open spec fn tile(&self, p: Position) -> Tile {
        self.cell(p.x as int, p.y as int)
    }

    /// `p` lies on the grid and is not blocked.
    pub open spec fn walkable(&self, p: Position) -> bool {
        self.contains(p) && !self.tile(p).obstacle
    }

    /// Every deposit on the grid holds at least one unit.
    pub open spec fn deposits_hold_units(&self) -> bool {
        forall|x: int, y: int|
            0 <= x < self.width && 0 <= y < self.height && (#[trigger] self.cell(x, y)).resource is Some
                ==> self.cell(x, y).resource->0.quantity > 0
    }

    /// A `width` by `height` grid of free tiles without any deposit.
    pub fn new(width: usize, height: usize) -> (m: TileMap)
        ensures
            m.wf(),
            m.width == width,
            m.height == height,
            forall|p: Position| m.contains(p) ==> #[trigger] m.tile(p) == Tile::default_tile(),
    {
        let mut tiles: Vec<Vec<Tile>> = Vec::new();
        let mut y: usize = 0;
        while y < height
            invariant
                y <= height,
                tiles@.len() == y,
                forall|j: int| 0 <= j < y ==> #[trigger] tiles@[j]@.len() == width,
                forall|j: int, i: int|
                    0 <= j < y && 0 <= i < width ==> #[trigger] tiles@[j]@[i] == Tile::default_tile(),
            decreases height - y,
        {
            let mut row: Vec<Tile> = Vec::new();
            let mut x: usize = 0;
            while x < width
                invariant
                    x <= width,
                    row@.len() == x,
                    forall|i: int| 0 <= i < x ==> #[trigger] row@[i] == Tile::default_tile(),
                decreases width - x,
            {
                row.push(Tile::default());
                x = x + 1;
            }
            tiles.push(row);
            y = y + 1;
        }
        TileMap { height, width, tiles }
    }

    /// Whether `p` lies on the grid.
    pub fn in_bounds(&self, p: &Position) -> (b: bool)
        ensures
            b == self.contains(*p),
    {
        p.x >= 0 && p.y >= 0 && (p.x as usize) < self.width && (p.y as usize) < self.height
    }

    /// Whether `p` lies on the grid and is not blocked.
    pub fn is_walkable(&self, p: &Position) -> (b: bool)
        requires
            self.wf(),
        ensures
            b == self.walkable(*p),
    {
        self.in_bounds(p) && !self.tiles[p.y as usize][p.x as usize].obstacle
    }

    /// The cells of the first `y` rows, and of the first `x` columns of row `y`, that hold
    /// no obstacle, row by row, as `(column, row)` pairs.
    pub open spec fn free_cells_before(&self, x: int, y: int) -> Seq<(usize, usize)>
        decreases y, x,
    {
        if y <= 0 && x <= 0 {
            Seq::empty()
        } else if x <= 0 {
            self.free_cells_before(self.width as int, y - 1)
        } else {
            let before = self.free_cells_before(x - 1, y);
            if self.cell(x - 1, y).obstacle {
                before
            } else {
                before.push(((x - 1) as usize, y as usize))
            }
        }
    }

    /// The cells of the grid that hold no obstacle, row by row.
    pub open spec fn free_cells_spec(&self) -> Seq<(usize, usize)> {
        if self.height == 0 {
            Seq::empty()
        } else {
            self.free_cells_before(self.width as int, self.height - 1)
        }
    }

    /// `cells` lists, row by row and from left to right in a row, each cell of the grid that
    /// holds no obstacle and comes before column `x` of row `y`, once, and nothing else.
    pub open spec fn lists_free_cells_before(&self, cells: Seq<(usize, usize)>, x: int, y: int) -> bool {
        &&& forall|i: int|
            0 <= i < cells.len() ==> {
                &&& (#[trigger] cells[i]).0 < self.width
                &&& cells[i].1 < self.height
                &&& !self.cell(cells[i].0 as int, cells[i].1 as int).obstacle
                &&& cell_precedes(cells[i], x, y)
            }
        &&& forall|cx: usize, cy: usize|
            cx < self.width && cy < self.height && !self.cell(cx as int, cy as int).obstacle && cell_precedes(
                (cx, cy),
                x,
                y,
            ) ==> #[trigger] cells.contains((cx, cy))
        &&& forall|i: int, j: int|
            0 <= i < j < cells.len() ==> cell_precedes(#[trigger] cells[i], (#[trigger] cells[j]).0 as int, cells[j].1 as int)
    }

    /// `cells` lists, row by row and from left to right in a row, each cell of the grid that
    /// holds no obstacle, once, and nothing else.
    pub open spec fn lists_free_cells(&self, cells: Seq<(usize, usize)>) -> bool {
        self.lists_free_cells_before(cells, 0, self.height as int)
    }

    /// The cells of the grid that hold no obstacle, row by row, as `(column, row)` pairs.
    pub fn free_cells(&self) -> (cells: Vec<(usize, usize)>)
        requires
            self.wf(),
        ensures
            cells@ == self.free_cells_spec(),
            self.lists_free_cells(cells@),
    {
        let mut cells: Vec<(usize, usize)> = Vec::new();
        let mut y: usize = 0;
        while y < self.height
            invariant
                self.wf(),
                y <= self.height,
                y == 0 ==> cells@ == Seq::<(usize, usize)>::empty(),
                y > 0 ==> cells@ == self.free_cells_before(self.width as int, y - 1),
                self.lists_free_cells_before(cells@, 0, y as int),
            decreases self.height - y,
        {
            let mut x: usize = 0;
            assert(cells@ == self.free_cells_before(0, y as int));
            while x < self.width
                invariant
                    self.wf(),
                    y < self.height,
                    x <= self.width,
                    cells@ == self.free_cells_before(x as int, y as int),
                    self.lists_free_cells_before(cells@, x as int, y as int),
                decreases self.width - x,
            {
                let ghost before = cells@;
                if !self.tiles[y][x].obstacle {
                    cells.push((x, y));
                    proof {
                        assert(cells@[before.len() as int] == (x, y));
                        assert forall|cx: usize, cy: usize|
                            cx < self.width && cy < self.height && !self.cell(cx as int, cy as int).obstacle
                                && cell_precedes((cx, cy), x + 1, y as int) implies #[trigger] cells@.contains((cx, cy)) by {
                            if cx == x && cy == y {
                                assert(cells@[before.len() as int] == (cx, cy));
                            } else {
                                assert(before.contains((cx, cy)));
                                let k = choose|k: int| 0 <= k < before.len() && before[k] == (cx, cy);
                                assert(cells@[k] == (cx, cy));
                            }
                        }
                        assert forall|i: int, j: int| 0 <= i < j < cells@.len() implies cell_precedes(
                            #[trigger] cells@[i],
                            (#[trigger] cells@[j]).0 as int,
                            cells@[j].1 as int,
                        ) by {
                            assert(cells@[i] == before[i]);
                            if j < before.len() {
                                assert(cells@[j] == before[j]);
                            }
                        }
                        assert forall|i: int| 0 <= i < cells@.len() implies cell_precedes(
                            #[trigger] cells@[i],
                            x + 1,
                            y as int,
                        ) by {
                            if i < before.len() {
                                assert(cells@[i] == before[i]);
                            }
                        }
                    }
                } else {
                    proof {
                        assert forall|cx: usize, cy: usize|
                            cx < self.width && cy < self.height && !self.cell(cx as int, cy as int).obstacle
                                && cell_precedes((cx, cy), x + 1, y as int) implies #[trigger] cells@.contains((cx, cy)) by {
                            if cx == x && cy == y {
                                assert(self.cell(x as int, y as int) == self.tiles@[y as int]@[x as int]);
                            }
                        }
                    }
                }
                x = x + 1;
            }
            proof {
                assert forall|cx: usize, cy: usize|
                    cx < self.width && cy < self.height && !self.cell(cx as int, cy as int).obstacle && cell_precedes(
                        (cx, cy),
                        0,
                        y + 1,
                    ) implies #[trigger] cells@.contains((cx, cy)) by {
                    assert(cell_precedes((cx, cy), self.width as int, y as int));
                }
            }
            y = y + 1;
        }
        cells
    }

    /// Blocks every cell marked in `mask`; the other cells and every deposit stay as they are.
    pub fn add_obstacles(&mut self, mask: &Vec<Vec<bool>>)
        requires
            old(self).wf(),
            mask@.len() == old(self).height,
            forall|y: int| 0 <= y < old(self).height ==> #[trigger] mask@[y]@.len() == old(self).width,
        ensures
            final(self).wf(),
            final(self).width == old(self).width,
            final(self).height == old(self).height,
            forall|x: int, y: int|
                0 <= x < old(self).width && 0 <= y < old(self).height ==> #[trigger] final(self).cell(x, y)
                    == (Tile { obstacle: old(self).cell(x, y).obstacle || mask@[y]@[x], ..old(self).cell(x, y) }),
    {
        let mut y: usize = 0;
        while y < self.height
            invariant
                self.wf(),
                self.width == old(self).width,
                self.height == old(self).height,
                y <= self.height,
                mask@.len() == self.height,
                forall|j: int| 0 <= j < self.height ==> #[trigger] mask@[j]@.len() == self.width,
                forall|i: int, j: int|
                    0 <= i < self.width && 0 <= j < self.height ==> #[trigger] self.cell(i, j) == if j < y {
                        Tile { obstacle: old(self).cell(i, j).obstacle || mask@[j]@[i], ..old(self).cell(i, j) }
                    } else {
                        old(self).cell(i, j)
                    },
            decreases self.height - y,
        {
            let mut x: usize = 0;
            while x < self.width
                invariant
                    self.wf(),
                    self.width == old(self).width,
                    self.height == old(self).height,
                    y < self.height,
                    x <= self.width,
                    mask@.len() == self.height,
                    forall|j: int| 0 <= j < self.height ==> #[trigger] mask@[j]@.len() == self.width,
                    forall|i: int, j: int|
                        0 <= i < self.width && 0 <= j < self.height ==> #[trigger] self.cell(i, j) == if j < y
                            || (j == y && i < x) {
                            Tile { obstacle: old(self).cell(i, j).obstacle || mask@[j]@[i], ..old(self).cell(i, j) }
                        } else {
                            old(self).cell(i, j)
                        },
                decreases self.width - x,
            {
                if mask[y][x] {
                    let ghost before = *self;
                    self.tiles[y][x].obstacle = true;
                    assert forall|i: int, j: int|
                        0 <= i < self.width && 0 <= j < self.height && !(i == x && j == y) implies #[trigger] self.cell(i, j)
                        == before.cell(i, j) by {
                        if j == y {
                            assert(self.tiles@[j]@[i] == before.tiles@[j]@[i]);
                        }
                    }
                }
                x = x + 1;
            }
            y = y + 1;
        }
    }

    /// Puts `resource` on the tile at column `x` of row `y`; the other tiles stay as they are.
    pub fn place_resource(&mut self, x: usize, y: usize, resource: Resource)
        requires
            old(self).wf(),
            x < old(self).width,
            y < old(self).height,
        ensures
            final(self).wf(),
            final(self).width == old(self).width,
            final(self).height == old(self).height,
            forall|i: int, j: int|
                0 <= i < old(self).width && 0 <= j < old(self).height ==> #[trigger] final(self).cell(i, j)
                    == if i == x && j == y {
                    Tile { resource: Some(resource), ..old(self).cell(i, j) }
                } else {
                    old(self).cell(i, j)
                },
    {
        self.tiles[y][x].resource = Some(resource);
        assert forall|i: int, j: int|
            0 <= i < old(self).width && 0 <= j < old(self).height && !(i == x && j == y) implies #[trigger] self.cell(i, j)
            == old(self).cell(i, j) by {
            if j == y {
                assert(self.tiles@[j]@[i] == old(self).tiles@[j]@[i]);
            }
        }
    }
}

/// The cell `c` comes before column `x` of row `y`, row by row.
pub open spec fn cell_precedes(c: (usize, usize), x: int, y: int) -> bool {
    c.1 < y || (c.1 == y && c.0 < x)
}

impl Tile {
    /// A free tile without any deposit.
    pub open spec fn default_tile() -> Tile {
        Tile { obstacle: false, resource: None }
    }
}

} // verus!
