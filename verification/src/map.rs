//! The dungeon grid: tiles, per-cell flags, the occupancy index and the room list.

use vstd::prelude::*;

verus! {

/// The kind of a grid cell.
#[derive(Debug, PartialEq, Eq, Clone, Copy, Structural)]
pub enum Tile {
    Floor,
    Wall,
}

impl Tile {
    /// Sprite-sheet slot of the tile: the sheet is 48 slots wide, the floor glyph sits in
    /// slot 2 of the first row and the wall glyph in column 10 of row 17.
    pub fn index_in_sprite_sheet(&self) -> (index: usize)
        ensures
            index == (match *self {
                Tile::Floor => 2int,
                Tile::Wall => (17 * 48 + 10) as int,
            }),
    {
        match self {
            Tile::Floor => 2,
            Tile::Wall => 17 * 48 + 10,
        }
    }
}

/// A cell of the grid, column first.
#[derive(Debug, PartialEq, Eq, Clone, Copy, Structural)]
pub struct Position {
    pub x: usize,
    pub y: usize,
}

/// What an actor currently sees: the visible cells, the sight range, and whether the
/// set has to be recomputed.
#[derive(Debug, Clone)]
pub struct Viewshed {
    pub visible_tiles: Vec<Position>,
    pub range: i32,
    pub dirty: bool,
}

/// An axis-aligned rectangle of cells; both corners belong to it.
#[derive(Debug, PartialEq, Eq, Clone, Copy, Structural)]
pub struct Rect {
    pub x1: usize,
    pub y1: usize,
    pub x2: usize,
    pub y2: usize,
}

impl Rect {
    /// Whether the cell `(x, y)` lies in the rectangle, edges included.
    pub open spec fn contains(&self, x: int, y: int) -> bool {
        self.x1 <= x <= self.x2 && self.y1 <= y <= self.y2
    }

    /// Overlap of two rectangles with inclusive bounds: touching edges count.
    pub open spec fn spec_intersect(&self, other: &Rect) -> bool {
        self.x1 <= other.x2 && self.x2 >= other.x1 && self.y1 <= other.y2 && self.y2 >= other.y1
    }

    /// The middle cell, each coordinate rounded down.
    pub open spec fn spec_center(&self) -> (int, int) {
        ((self.x1 + self.x2) / 2, (self.y1 + self.y2) / 2)
    }

    pub fn new(x: usize, y: usize, w: usize, h: usize) -> (rect: Rect)
        requires
            x + w <= usize::MAX,
            y + h <= usize::MAX,
        ensures
            rect.x1 == x,
            rect.y1 == y,
            rect.x2 == x + w,
            rect.y2 == y + h,
    {
        Rect { x1: x, y1: y, x2: x + w, y2: y + h }
    }

    #[verifier::when_used_as_spec(spec_intersect)]
    pub fn intersect(&self, other: &Rect) -> (overlap: bool)
        ensures
            overlap == self.spec_intersect(other),
    {
        self.x1 <= other.x2 && self.x2 >= other.x1 && self.y1 <= other.y2 && self.y2 >= other.y1
    }

    pub fn center(&self) -> (c: (usize, usize))
        ensures
            c.0 == self.spec_center().0,
            c.1 == self.spec_center().1,
    {
        (midpoint(self.x1, self.x2), midpoint(self.y1, self.y2))
    }
}

/// Distance between two coordinates.
pub fn gap(a: usize, b: usize) -> (d: usize)
    ensures
        d == (if a >= b {
            a - b
        } else {
            b - a
        }),
{
    if a >= b {
        a - b
    } else {
        b - a
    }
}

/// `(a + b) / 2` rounded down, computed without leaving `usize`.
fn midpoint(a: usize, b: usize) -> (m: usize)
    ensures
        m == (a + b) / 2,
{
    a / 2 + b / 2 + (a % 2 + b % 2) / 2
}

/// Row-major cell numbering is a bijection between in-range cells and indices.
pub proof fn lemma_cell_index(cols: int, rows: int, x: int, y: int)
    requires
        0 <= x < cols,
        0 <= y < rows,
    ensures
        0 <= y * cols <= y * cols + x < cols * rows,
        (y * cols + x) / cols == y,
        (y * cols + x) % cols == x,
{
    assert(0 <= y * cols <= y * cols + x < cols * rows) by (nonlinear_arith)
        requires
            0 <= x < cols,
            0 <= y < rows,
    ;
    vstd::arithmetic::div_mod::lemma_fundamental_div_mod_converse(y * cols + x, cols, y, x);
}

/// Every index below `cols * rows` is the number of exactly one in-range cell.
pub proof fn lemma_index_cell(cols: int, rows: int, i: int)
    requires
        0 < cols,
        0 <= i < cols * rows,
    ensures
        0 <= i % cols < cols,
        0 <= i / cols < rows,
        (i / cols) * cols + i % cols == i,
{
    vstd::arithmetic::div_mod::lemma_fundamental_div_mod(i, cols);
    vstd::arithmetic::div_mod::lemma_mod_bound(i, cols);
    let q = i / cols;
    let r = i % cols;
    assert(cols * q == q * cols) by (nonlinear_arith);
    assert(0 <= q < rows) by (nonlinear_arith)
        requires
            0 < cols,
            0 <= r < cols,
            0 <= q * cols + r < cols * rows,
    ;
}

/// The level: a `cols` by `rows` matrix of tiles stored row by row, with one flag
/// array per purpose and the list of rooms that generation placed.
#[derive(Debug, Clone)]
pub struct Grid {
    pub cols: usize,
    pub rows: usize,
    pub tile_size: usize,
    pub tileset_grids: Option<(usize, usize)>,
    pub rooms: Vec<Rect>,
    pub revealed_tiles: Vec<bool>,
    pub visible_tiles: Vec<bool>,
    pub blocked: Vec<bool>,
    pub tile_content: Vec<Vec<u64>>,
    pub tiles: Vec<Tile>,
}

impl Grid {
    /// Number of cells.
    pub open spec fn area(&self) -> int {
        self.cols * self.rows
    }

    /// Index of the cell `(x, y)` in every per-cell array.
    pub open spec fn spec_index(&self, x: int, y: int) -> int {
        y * self.cols + x
    }

    pub open spec fn in_bounds(&self, x: int, y: int) -> bool {
        0 <= x < self.cols && 0 <= y < self.rows
    }

    /// The tile of cell `(x, y)`.
    pub open spec fn tile_at(&self, x: int, y: int) -> Tile {
        self.tiles@[self.spec_index(x, y)]
    }

    /// Every per-cell array has one entry per cell.
    pub open spec fn wf(&self) -> bool {
        &&& self.tiles@.len() == self.area()
        &&& self.revealed_tiles@.len() == self.area()
        &&& self.visible_tiles@.len() == self.area()
        &&& self.blocked@.len() == self.area()
        &&& self.tile_content@.len() == self.area()
    }

    /// Same dimensions and same content in everything but the tiles.
    pub open spec fn same_but_tiles(&self, other: &Grid) -> bool {
        &&& self.cols == other.cols
        &&& self.rows == other.rows
        &&& self.tile_size == other.tile_size
        &&& self.tileset_grids == other.tileset_grids
        &&& self.rooms@ == other.rooms@
        &&& self.revealed_tiles@ == other.revealed_tiles@
        &&& self.visible_tiles@ == other.visible_tiles@
        &&& self.blocked@ == other.blocked@
        &&& self.tile_content@ == other.tile_content@
    }

    /// Whether every per-cell array has one entry per cell.
    pub fn is_well_formed(&self) -> (ok: bool)
        ensures
            ok == self.wf(),
    {
        match self.cols.checked_mul(self.rows) {
            Some(area) => {
                self.tiles.len() == area && self.revealed_tiles.len() == area
                    && self.visible_tiles.len() == area && self.blocked.len() == area
                    && self.tile_content.len() == area
            },
            None => {
                assert(self.area() != self.tiles.len());
                false
            },
        }
    }

    /// A grid of walls with nothing revealed, nothing blocked and no rooms.
    pub fn new(cols: usize, rows: usize, tile_size: usize) -> (map: Grid)
        requires
            cols * rows <= usize::MAX,
        ensures
            map.wf(),
            map.cols == cols,
            map.rows == rows,
            map.tile_size == tile_size,
            map.tileset_grids.is_none(),
            map.rooms@.len() == 0,
            forall|i: int| 0 <= i < map.area() ==> map.tiles@[i] == Tile::Wall,
            forall|i: int| 0 <= i < map.area() ==> !map.revealed_tiles@[i],
            forall|i: int| 0 <= i < map.area() ==> !map.visible_tiles@[i],
            forall|i: int| 0 <= i < map.area() ==> !map.blocked@[i],
            forall|i: int| 0 <= i < map.area() ==> map.tile_content@[i]@.len() == 0,
    {
        let n: usize = cols * rows;
        let mut tiles: Vec<Tile> = Vec::new();
        let mut revealed_tiles: Vec<bool> = Vec::new();
        let mut visible_tiles: Vec<bool> = Vec::new();
        let mut blocked: Vec<bool> = Vec::new();
        let mut tile_content: Vec<Vec<u64>> = Vec::new();
        let mut i: usize = 0;
        while i < n
            invariant
                i <= n,
                tiles@.len() == i,
                revealed_tiles@.len() == i,
                visible_tiles@.len() == i,
                blocked@.len() == i,
                tile_content@.len() == i,
                forall|j: int| 0 <= j < i ==> tiles@[j] == Tile::Wall,
                forall|j: int| 0 <= j < i ==> !revealed_tiles@[j],
                forall|j: int| 0 <= j < i ==> !visible_tiles@[j],
                forall|j: int| 0 <= j < i ==> !blocked@[j],
                forall|j: int| 0 <= j < i ==> tile_content@[j]@.len() == 0,
            decreases n - i,
        {
            tiles.push(Tile::Wall);
            revealed_tiles.push(false);
            visible_tiles.push(false);
            blocked.push(false);
            tile_content.push(Vec::new());
            i += 1;
        }
        Grid {
            cols,
            rows,
            tile_size,
            tileset_grids: None,
            rooms: Vec::new(),
            revealed_tiles,
            visible_tiles,
            blocked,
            tile_content,
            tiles,
        }
    }

    /// Back to the state `new` leaves: all walls, nothing seen, nothing blocked, no rooms.
    pub fn clear_map(&mut self)
        requires
            old(self).wf(),
        ensures
            final(self).wf(),
            final(self).cols == old(self).cols,
            final(self).rows == old(self).rows,
            final(self).tile_size == old(self).tile_size,
            final(self).tileset_grids.is_none(),
            final(self).rooms@.len() == 0,
            forall|i: int| 0 <= i < final(self).area() ==> final(self).tiles@[i] == Tile::Wall,
            forall|i: int| 0 <= i < final(self).area() ==> !final(self).revealed_tiles@[i],
            forall|i: int| 0 <= i < final(self).area() ==> !final(self).visible_tiles@[i],
            forall|i: int| 0 <= i < final(self).area() ==> !final(self).blocked@[i],
            forall|i: int|
                0 <= i < final(self).area() ==> final(self).tile_content@[i]@.len() == 0,
    {
        self.tileset_grids = None;
        self.rooms.clear();
        let n: usize = self.tiles.len();
        let mut i: usize = 0;
        while i < n
            invariant
                i <= n,
                n == self.area(),
                self.wf(),
                self.cols == old(self).cols,
                self.rows == old(self).rows,
                self.tile_size == old(self).tile_size,
                self.tileset_grids.is_none(),
                self.rooms@.len() == 0,
                forall|j: int| 0 <= j < i ==> self.tiles@[j] == Tile::Wall,
                forall|j: int| 0 <= j < i ==> !self.revealed_tiles@[j],
                forall|j: int| 0 <= j < i ==> !self.visible_tiles@[j],
                forall|j: int| 0 <= j < i ==> !self.blocked@[j],
                forall|j: int| 0 <= j < i ==> self.tile_content@[j]@.len() == 0,
            decreases n - i,
        {
            self.tiles[i] = Tile::Wall;
            self.revealed_tiles[i] = false;
            self.visible_tiles[i] = false;
            self.blocked[i] = false;
            self.tile_content[i].clear();
            i += 1;
        }
    }

    /// Overwrites one cell.
    pub fn set_tile(&mut self, col: usize, row: usize, tile: Tile)
        requires
            old(self).wf(),
            old(self).in_bounds(col as int, row as int),
        ensures
            final(self).wf(),
            final(self).same_but_tiles(old(self)),
            final(self).tiles@ == old(self).tiles@.update(
                old(self).spec_index(col as int, row as int),
                tile,
            ),
            forall|x: int, y: int|
                final(self).in_bounds(x, y) ==> #[trigger] final(self).tile_at(x, y) == (if x
                    == col && y == row {
                    tile
                } else {
                    old(self).tile_at(x, y)
                }),
    {
        proof {
            lemma_cell_index(self.cols as int, self.rows as int, col as int, row as int);
            assert(self.area() == self.tiles.len());
        }
        let idx: usize = row * self.cols + col;
        self.tiles[idx] = tile;
        proof {
            assert forall|x: int, y: int| self.in_bounds(x, y) implies #[trigger] self.tile_at(x, y)
                == (if x == col && y == row {
                tile
            } else {
                old(self).tile_at(x, y)
            }) by {
                lemma_cell_index(self.cols as int, self.rows as int, x, y);
            }
        }
    }

    pub fn get_tile(&self, col: usize, row: usize) -> (tile: Tile)
        requires
            self.wf(),
            self.in_bounds(col as int, row as int),
        ensures
            tile == self.tile_at(col as int, row as int),
    {
        proof {
            lemma_cell_index(self.cols as int, self.rows as int, col as int, row as int);
            assert(self.area() == self.tiles.len());
        }
        self.tiles[row * self.cols + col]
    }

    /// Slot of the sprite at `(col, row)` of the tileset, or 0 while the tileset's grid
    /// is not known.
    pub fn get_tile_index_in_sprite_sheet(&self, col: usize, row: usize) -> (index: usize)
        requires
            self.tileset_grids matches Some(grid) ==> row * grid.0 + col <= usize::MAX,
        ensures
            index == (match self.tileset_grids {
                Some(grid) => row * grid.0 + col,
                None => 0,
            }),
    {
        if let Some((cols, _rows)) = self.tileset_grids {
            assert(row * cols <= row * cols + col) by (nonlinear_arith);
            row * cols + col
        } else {
            0
        }
    }

    #[verifier::when_used_as_spec(spec_index_usize)]
    pub fn xy_to_index(&self, x: usize, y: usize) -> (index: usize)
        requires
            y * self.cols + x <= usize::MAX,
        ensures
            index == self.spec_index(x as int, y as int),
    {
        assert(y * self.cols <= y * self.cols + x) by (nonlinear_arith);
        y * self.cols + x
    }

    pub open spec fn spec_index_usize(&self, x: usize, y: usize) -> usize {
        self.spec_index(x as int, y as int) as usize
    }

    /// Whether every cell of `rect` is a cell of the grid. An empty rectangle fits anywhere.
    pub open spec fn holds_rect(&self, rect: &Rect) -> bool {
        rect.x1 <= rect.x2 && rect.y1 <= rect.y2 ==> rect.x2 < self.cols && rect.y2 < self.rows
    }

    /// Overwrites every cell of `rect`, edges included.
    pub fn set_rect(&mut self, rect: &Rect, tile: Tile)
        requires
            old(self).wf(),
            old(self).holds_rect(rect),
        ensures
            final(self).wf(),
            final(self).same_but_tiles(old(self)),
            forall|x: int, y: int|
                final(self).in_bounds(x, y) ==> #[trigger] final(self).tile_at(x, y) == (
                if rect.contains(x, y) {
                    tile
                } else {
                    old(self).tile_at(x, y)
                }),
    {
        if rect.x1 > rect.x2 {
            return ;
        }
        let mut r: usize = rect.y1;
        while r <= rect.y2
            invariant
                self.wf(),
                self.same_but_tiles(old(self)),
                rect.x1 <= rect.x2,
                rect.y1 <= r,
                r <= rect.y2 ==> rect.x2 < self.cols && rect.y2 < self.rows,
                forall|x: int, y: int|
                    self.in_bounds(x, y) ==> #[trigger] self.tile_at(x, y) == (if rect.contains(
                        x,
                        y,
                    ) && y < r {
                        tile
                    } else {
                        old(self).tile_at(x, y)
                    }),
            decreases rect.y2 + 1 - r,
        {
            let mut c: usize = rect.x1;
            while c <= rect.x2
                invariant
                    self.wf(),
                    self.same_but_tiles(old(self)),
                    rect.x1 <= c,
                    rect.y1 <= r <= rect.y2,
                    rect.x2 < self.cols,
                    rect.y2 < self.rows,
                    forall|x: int, y: int|
                        self.in_bounds(x, y) ==> #[trigger] self.tile_at(x, y) == (
                        if rect.contains(x, y) && (y < r || (y == r && x < c)) {
                            tile
                        } else {
                            old(self).tile_at(x, y)
                        }),
                decreases rect.x2 + 1 - c,
            {
                self.set_tile(c, r, tile);
                c += 1;
            }
            r += 1;
        }
    }

    /// Overwrites the cells of row `y` from column `x1` to column `x2`, whichever of the
    /// two is the smaller, both ends included.
    pub fn set_horizontal_line(&mut self, x1: usize, x2: usize, y: usize, tile: Tile)
        requires
            old(self).wf(),
            old(self).in_bounds(x1 as int, y as int),
            old(self).in_bounds(x2 as int, y as int),
        ensures
            final(self).wf(),
            final(self).same_but_tiles(old(self)),
            forall|x: int, yy: int|
                final(self).in_bounds(x, yy) ==> #[trigger] final(self).tile_at(x, yy) == (
                if yy == y && between(x1 as int, x2 as int, x) {
                    tile
                } else {
                    old(self).tile_at(x, yy)
                }),
    {
        let lo: usize = if x1 <= x2 { x1 } else { x2 };
        let hi: usize = if x1 <= x2 { x2 } else { x1 };
        let mut x: usize = lo;
        while x <= hi
            invariant
                self.wf(),
                self.same_but_tiles(old(self)),
                lo <= x <= hi + 1,
                hi < self.cols,
                y < self.rows,
                forall|xx: int, yy: int|
                    self.in_bounds(xx, yy) ==> #[trigger] self.tile_at(xx, yy) == (if yy == y
                        && lo <= xx < x {
                        tile
                    } else {
                        old(self).tile_at(xx, yy)
                    }),
            decreases hi + 1 - x,
        {
            self.set_tile(x, y, tile);
            x += 1;
        }
    }

    /// Overwrites the cells of column `x` from row `y1` to row `y2`, whichever of the two
    /// is the smaller, both ends included.
    pub fn set_vertical_line(&mut self, x: usize, y1: usize, y2: usize, tile: Tile)
        requires
            old(self).wf(),
            old(self).in_bounds(x as int, y1 as int),
            old(self).in_bounds(x as int, y2 as int),
        ensures
            final(self).wf(),
            final(self).same_but_tiles(old(self)),
            forall|xx: int, y: int|
                final(self).in_bounds(xx, y) ==> #[trigger] final(self).tile_at(xx, y) == (
                if xx == x && between(y1 as int, y2 as int, y) {
                    tile
                } else {
                    old(self).tile_at(xx, y)
                }),
    {
        let lo: usize = if y1 <= y2 { y1 } else { y2 };
        let hi: usize = if y1 <= y2 { y2 } else { y1 };
        let mut y: usize = lo;
        while y <= hi
            invariant
                self.wf(),
                self.same_but_tiles(old(self)),
                lo <= y <= hi + 1,
                hi < self.rows,
                x < self.cols,
                forall|xx: int, yy: int|
                    self.in_bounds(xx, yy) ==> #[trigger] self.tile_at(xx, yy) == (if xx == x
                        && lo <= yy < y {
                        tile
                    } else {
                        old(self).tile_at(xx, yy)
                    }),
            decreases hi + 1 - y,
        {
            self.set_tile(x, y, tile);
            y += 1;
        }
    }

    /// Marks exactly the wall cells as blocked.
    pub fn populate_blocked(&mut self)
        requires
            old(self).wf(),
        ensures
            final(self).wf(),
            final(self).cols == old(self).cols,
            final(self).rows == old(self).rows,
            final(self).tile_size == old(self).tile_size,
            final(self).tileset_grids == old(self).tileset_grids,
            final(self).rooms@ == old(self).rooms@,
            final(self).tiles@ == old(self).tiles@,
            final(self).revealed_tiles@ == old(self).revealed_tiles@,
            final(self).visible_tiles@ == old(self).visible_tiles@,
            final(self).tile_content@ == old(self).tile_content@,
            final(self).blocked_by_walls_only(),
    {
        let n: usize = self.tiles.len();
        let mut i: usize = 0;
        while i < n
            invariant
                i <= n,
                n == self.tiles@.len(),
                self.wf(),
                self.cols == old(self).cols,
                self.rows == old(self).rows,
                self.tile_size == old(self).tile_size,
                self.tileset_grids == old(self).tileset_grids,
                self.rooms@ == old(self).rooms@,
                self.tiles@ == old(self).tiles@,
                self.revealed_tiles@ == old(self).revealed_tiles@,
                self.visible_tiles@ == old(self).visible_tiles@,
                self.tile_content@ == old(self).tile_content@,
                forall|j: int| 0 <= j < i ==> self.blocked@[j] == (self.tiles@[j] == Tile::Wall),
            decreases n - i,
        {
            let wall: bool = self.tiles[i] == Tile::Wall;
            self.blocked[i] = wall;
            i += 1;
        }
    }

    /// A cell is blocked exactly if it is a wall: the state `populate_blocked` leaves.
    pub open spec fn blocked_by_walls_only(&self) -> bool {
        forall|i: int|
            0 <= i < self.area() ==> #[trigger] self.blocked@[i] == (self.tiles@[i] == Tile::Wall)
    }

    /// Empties the occupancy index, keeping one (empty) entry per cell.
    pub fn clear_content_index(&mut self)
        requires
            old(self).wf(),
        ensures
            final(self).wf(),
            final(self).cols == old(self).cols,
            final(self).rows == old(self).rows,
            final(self).tile_size == old(self).tile_size,
            final(self).tileset_grids == old(self).tileset_grids,
            final(self).rooms@ == old(self).rooms@,
            final(self).tiles@ == old(self).tiles@,
            final(self).revealed_tiles@ == old(self).revealed_tiles@,
            final(self).visible_tiles@ == old(self).visible_tiles@,
            final(self).blocked@ == old(self).blocked@,
            forall|i: int|
                0 <= i < final(self).area() ==> (#[trigger] final(self).tile_content@[i])@.len()
                    == 0,
    {
        let n: usize = self.tile_content.len();
        let mut i: usize = 0;
        while i < n
            invariant
                i <= n,
                n == self.tile_content@.len(),
                self.wf(),
                self.cols == old(self).cols,
                self.rows == old(self).rows,
                self.tile_size == old(self).tile_size,
                self.tileset_grids == old(self).tileset_grids,
                self.rooms@ == old(self).rooms@,
                self.tiles@ == old(self).tiles@,
                self.revealed_tiles@ == old(self).revealed_tiles@,
                self.visible_tiles@ == old(self).visible_tiles@,
                self.blocked@ == old(self).blocked@,
                forall|j: int| 0 <= j < i ==> (#[trigger] self.tile_content@[j])@.len() == 0,
            decreases n - i,
        {
            self.tile_content[i].clear();
            i += 1;
        }
    }
}

impl Default for Grid {
    /// The grid without any cell.
    fn default() -> (map: Grid)
        ensures
            map.wf(),
            map.cols == 0,
            map.rows == 0,
            map.tile_size == 0,
            map.tileset_grids.is_none(),
            map.rooms@.len() == 0,
    {
        Grid::new(0, 0, 0)
    }
}

/// How a cell is to be drawn.
#[derive(Debug, PartialEq, Eq, Clone, Copy, Structural)]
pub enum TileDisplay {
    /// Never seen: not drawn.
    Hidden,
    /// Seen before but not now: drawn darkened.
    Remembered,
    /// Seen now: drawn as it is.
    Lit,
}

impl Grid {
    /// How the cell `(col, row)` is to be drawn: not at all until it was revealed, then
    /// as it is while it is visible and darkened while it is not.
    pub fn tile_display(&self, col: usize, row: usize) -> (display: TileDisplay)
        requires
            self.wf(),
            self.in_bounds(col as int, row as int),
        ensures
            display == (if !self.revealed_tiles@[self.spec_index(col as int, row as int)] {
                TileDisplay::Hidden
            } else if self.visible_tiles@[self.spec_index(col as int, row as int)] {
                TileDisplay::Lit
            } else {
                TileDisplay::Remembered
            }),
    {
        proof {
            lemma_cell_index(self.cols as int, self.rows as int, col as int, row as int);
            assert(self.area() == self.tiles.len());
        }
        let idx: usize = self.xy_to_index(col, row);
        if !self.revealed_tiles[idx] {
            TileDisplay::Hidden
        } else if self.visible_tiles[idx] {
            TileDisplay::Lit
        } else {
            TileDisplay::Remembered
        }
    }
}

/// Whether one of `cells` is the cell `idx` of a grid `cols` wide.
pub open spec fn names_cell(cells: Seq<Position>, cols: int, idx: int) -> bool {
    exists|j: int| 0 <= j < cells.len() && (#[trigger] cells[j]).y * cols + cells[j].x == idx
}

/// A list with one more cell names a cell exactly if the shorter list names it or the
/// added cell is it.
pub proof fn lemma_names_cell_push(cells: Seq<Position>, added: Position, cols: int, idx: int)
    ensures
        names_cell(cells.push(added), cols, idx) == (names_cell(cells, cols, idx) || added.y * cols
            + added.x == idx),
{
    let longer = cells.push(added);
    if names_cell(cells, cols, idx) {
        let j = choose|j: int|
            0 <= j < cells.len() && (#[trigger] cells[j]).y * cols + cells[j].x == idx;
        assert(longer[j] == cells[j]);
    }
    if added.y * cols + added.x == idx {
        assert(longer[cells.len() as int] == added);
    }
    if names_cell(longer, cols, idx) {
        let j = choose|j: int|
            0 <= j < longer.len() && (#[trigger] longer[j]).y * cols + longer[j].x == idx;
        if j < cells.len() {
            assert(longer[j] == cells[j]);
        }
    }
}

/// Whether `v` lies between `a` and `b`, in whichever order they come, ends included.
pub open spec fn between(a: int, b: int, v: int) -> bool {
    (a <= v <= b) || (b <= v <= a)
}

} // verus!
