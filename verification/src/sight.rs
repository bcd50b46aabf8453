//! Field of view: what an actor sees, and what the grid remembers of it.

use crate::actor::{
    all_on_grid, find_player, index_of_player, lemma_index_of_player, stand_on_grid, Actor,
};
use crate::map::{
    lemma_cell_index, lemma_names_cell_push, names_cell, Grid, Position, Tile, Viewshed,
};
use bracket_pathfinding::prelude::Algorithm2D;
use bracket_pathfinding::prelude::BaseMap;
use bracket_pathfinding::prelude::Point;
use vstd::prelude::*;

verus! {

/// Largest sight range, to either side of zero, that a field of view is computed for:
/// the square of twice the range has to fit the 32-bit arithmetic of the computation.
pub const MAX_SIGHT_RANGE: i32 = 23170;

/// `bracket_geometry::Point`, a pair of public `i32` coordinates, read as it is.
#[verifier::external_type_specification]
pub struct ExPoint(Point);

/// The grid as a map for the field of view. Only `is_opaque` is given: exits and
/// distances stay at the trait's defaults, no exits and a distance of one, because the
/// trait wants both as floats. So a search that is handed a `Grid` itself finds no path;
/// a map for searching has to wrap the grid and take its exits from
/// `get_available_exits` and its distances from `distance_squared`.
impl BaseMap for Grid {
    /// Walls stop the sight, and so does whatever lies off the grid.
    fn is_opaque(&self, idx: usize) -> (opaque: bool)
        ensures
            opaque == (idx >= self.tiles@.len() || self.tiles@[idx as int] == Tile::Wall),
    {
        idx >= self.tiles.len() || self.tiles[idx] == Tile::Wall
    }
}

impl Algorithm2D for Grid {
    fn dimensions(&self) -> (size: Point)
        ensures
            self.cols <= i32::MAX && self.rows <= i32::MAX ==> size.x == self.cols && size.y
                == self.rows,
    {
        Point { x: self.cols as i32, y: self.rows as i32 }
    }
}

impl Grid {
    /// For each cell whether it stops the sight: the walls do.
    pub open spec fn opaque_cells(&self) -> Seq<bool> {
        Seq::new(self.tiles@.len(), |i: int| self.tiles@[i] == Tile::Wall)
    }

    /// What a field of view can be computed for: a grid whose dimensions and cell
    /// numbers fit `i32`.
    pub open spec fn fits_sight(&self) -> bool {
        self.wf() && self.cols <= i32::MAX && self.rows <= i32::MAX && self.area() <= i32::MAX
    }
}

/// Whether `a` and `b` are no further apart than the size of `range`.
pub open spec fn within_range(a: int, b: int, range: int) -> bool {
    if range >= 0 {
        -range <= a - b <= range
    } else {
        range <= a - b <= -range
    }
}

/// The cells in the field of view of `bracket_pathfinding::prelude::field_of_view`
/// around `(x, y)` with the given range, on a grid of `cols` by `rows` cells of which
/// `opaque` says row by row which ones stop the sight.
pub uninterp spec fn fov_cells(
    x: int,
    y: int,
    range: int,
    cols: int,
    rows: int,
    opaque: Seq<bool>,
) -> Set<(i32, i32)>;

/// `bracket_pathfinding::prelude::field_of_view` with the grid as its map. The
/// function computes a set and hands it out as a vector, so no cell comes twice, and it
/// drops what lies off the map; the order of the cells is that of a hash set and not
/// stated. The set starts with the origin, and a cell is only added after its distance
/// from the origin was held against the range, which keeps it within the range in
/// either coordinate. The preconditions keep the function's `i32` arithmetic from
/// overflowing. A range near the limit also asks for a very large allocation.
#[verifier::external_body]
fn field_of_view(x: i32, y: i32, range: i32, map: &Grid) -> (cells: Vec<(i32, i32)>)
    requires
        map.fits_sight(),
        map.in_bounds(x as int, y as int),
        -MAX_SIGHT_RANGE <= range <= MAX_SIGHT_RANGE,
    ensures
        cells@.to_set() == fov_cells(
            x as int,
            y as int,
            range as int,
            map.cols as int,
            map.rows as int,
            map.opaque_cells(),
        ),
        cells@.no_duplicates(),
        forall|i: int|
            0 <= i < cells@.len() ==> map.in_bounds(
                (#[trigger] cells@[i]).0 as int,
                cells@[i].1 as int,
            ),
        cells@.contains((x, y)),
        forall|i: int|
            0 <= i < cells@.len() ==> within_range(
                (#[trigger] cells@[i]).0 as int,
                x as int,
                range as int,
            ) && within_range(cells@[i].1 as int, y as int, range as int),
{
    bracket_pathfinding::prelude::field_of_view(Point::new(x, y), range, map)
        .into_iter()
        .map(|p| (p.x, p.y))
        .collect()
}

/// Whether `cell` names a cell of a `cols` by `rows` grid.
pub open spec fn cell_on_grid(cell: (i32, i32), cols: int, rows: int) -> bool {
    0 <= cell.0 < cols && 0 <= cell.1 < rows
}

/// The cells of `cells` that lie on a `cols` by `rows` grid, in their order.
pub open spec fn clipped(cells: Seq<(i32, i32)>, cols: int, rows: int) -> Seq<Position>
    decreases cells.len(),
{
    if cells.len() == 0 {
        Seq::empty()
    } else {
        let kept = clipped(cells.drop_last(), cols, rows);
        let cell = cells.last();
        if cell_on_grid(cell, cols, rows) {
            kept.push(Position { x: cell.0 as usize, y: cell.1 as usize })
        } else {
            kept
        }
    }
}

/// Clipping keeps only cells of the grid.
pub proof fn lemma_clipped_on_grid(cells: Seq<(i32, i32)>, cols: int, rows: int, j: int)
    requires
        0 <= j < clipped(cells, cols, rows).len(),
    ensures
        0 <= clipped(cells, cols, rows)[j].x < cols,
        0 <= clipped(cells, cols, rows)[j].y < rows,
    decreases cells.len(),
{
    if cells.len() > 0 {
        let kept = clipped(cells.drop_last(), cols, rows);
        if j < kept.len() {
            lemma_clipped_on_grid(cells.drop_last(), cols, rows, j);
        }
    }
}

/// Clipping makes no cell up: each cell it keeps is one of those it was given.
pub proof fn lemma_clipped_from(cells: Seq<(i32, i32)>, cols: int, rows: int, j: int) -> (i: int)
    requires
        0 <= j < clipped(cells, cols, rows).len(),
    ensures
        0 <= i < cells.len(),
        cell_on_grid(cells[i], cols, rows),
        clipped(cells, cols, rows)[j].x == cells[i].0,
        clipped(cells, cols, rows)[j].y == cells[i].1,
    decreases cells.len(),
{
    let kept = clipped(cells.drop_last(), cols, rows);
    if j < kept.len() {
        lemma_clipped_from(cells.drop_last(), cols, rows, j)
    } else {
        cells.len() - 1
    }
}

/// Clipping keeps every cell of the grid that it was given.
pub proof fn lemma_clipped_keeps(cells: Seq<(i32, i32)>, cols: int, rows: int, i: int)
    requires
        0 <= i < cells.len(),
        cell_on_grid(cells[i], cols, rows),
    ensures
        clipped(cells, cols, rows).contains(
            Position { x: cells[i].0 as usize, y: cells[i].1 as usize },
        ),
    decreases cells.len(),
{
    let kept = clipped(cells.drop_last(), cols, rows);
    let all = clipped(cells, cols, rows);
    let cell = Position { x: cells[i].0 as usize, y: cells[i].1 as usize };
    if i < cells.len() - 1 {
        lemma_clipped_keeps(cells.drop_last(), cols, rows, i);
        let j = choose|j: int| 0 <= j < kept.len() && kept[j] == cell;
        assert(all[j] == cell);
    } else {
        assert(all[all.len() - 1] == cell);
    }
}

/// Drops from `cells` what lies off a `cols` by `rows` grid.
pub fn clip_to_grid(cells: &Vec<(i32, i32)>, cols: usize, rows: usize) -> (kept: Vec<Position>)
    ensures
        kept@ == clipped(cells@, cols as int, rows as int),
{
    let mut kept: Vec<Position> = Vec::new();
    assert(cells@.take(0) == Seq::<(i32, i32)>::empty());
    let mut i: usize = 0;
    while i < cells.len()
        invariant
            i <= cells@.len(),
            kept@ == clipped(cells@.take(i as int), cols as int, rows as int),
        decreases cells@.len() - i,
    {
        let cell: (i32, i32) = cells[i];
        proof {
            assert(cells@.take(i + 1).drop_last() == cells@.take(i as int));
            assert(cells@.take(i + 1).last() == cell);
        }
        if cell.0 >= 0 && cell.1 >= 0 {
            let x: usize = cell.0 as usize;
            let y: usize = cell.1 as usize;
            if x < cols && y < rows {
                kept.push(Position { x, y });
            }
        }
        i += 1;
    }
    assert(cells@.take(i as int) == cells@);
    kept
}

impl Grid {
    /// Same grid in everything but what is visible and what was revealed.
    pub open spec fn same_but_seen(&self, other: &Grid) -> bool {
        &&& self.cols == other.cols
        &&& self.rows == other.rows
        &&& self.tile_size == other.tile_size
        &&& self.tileset_grids == other.tileset_grids
        &&& self.rooms@ == other.rooms@
        &&& self.tiles@ == other.tiles@
        &&& self.blocked@ == other.blocked@
        &&& self.tile_content@ == other.tile_content@
    }

    /// Makes `seen` the cells that are visible now: every other cell stops being
    /// visible, and the cells of `seen` are also remembered as revealed, as is whatever
    /// was revealed before.
    pub fn show(&mut self, seen: &Vec<Position>)
        requires
            old(self).wf(),
            forall|j: int|
                0 <= j < seen@.len() ==> old(self).in_bounds(
                    (#[trigger] seen@[j]).x as int,
                    seen@[j].y as int,
                ),
        ensures
            final(self).wf(),
            final(self).same_but_seen(old(self)),
            forall|idx: int|
                0 <= idx < final(self).area() ==> #[trigger] final(self).visible_tiles@[idx]
                    == names_cell(seen@, final(self).cols as int, idx),
            forall|idx: int|
                0 <= idx < final(self).area() ==> #[trigger] final(self).revealed_tiles@[idx] == (
                old(self).revealed_tiles@[idx] || names_cell(seen@, final(self).cols as int, idx)),
    {
        let n: usize = self.visible_tiles.len();
        let mut i: usize = 0;
        while i < n
            invariant
                i <= n,
                n == self.visible_tiles@.len(),
                self.wf(),
                self.same_but_seen(old(self)),
                self.revealed_tiles@ == old(self).revealed_tiles@,
                forall|j: int| 0 <= j < i ==> !self.visible_tiles@[j],
            decreases n - i,
        {
            self.visible_tiles[i] = false;
            i += 1;
        }
        let mut k: usize = 0;
        while k < seen.len()
            invariant
                k <= seen@.len(),
                self.wf(),
                self.same_but_seen(old(self)),
                forall|j: int|
                    0 <= j < seen@.len() ==> self.in_bounds(
                        (#[trigger] seen@[j]).x as int,
                        seen@[j].y as int,
                    ),
                forall|idx: int|
                    0 <= idx < self.area() ==> #[trigger] self.visible_tiles@[idx] == names_cell(
                        seen@.take(k as int),
                        self.cols as int,
                        idx,
                    ),
                forall|idx: int|
                    0 <= idx < self.area() ==> #[trigger] self.revealed_tiles@[idx] == (old(
                        self,
                    ).revealed_tiles@[idx] || names_cell(
                        seen@.take(k as int),
                        self.cols as int,
                        idx,
                    )),
            decreases seen@.len() - k,
        {
            let ghost before = *self;
            let pos: Position = seen[k];
            proof {
                lemma_cell_index(self.cols as int, self.rows as int, pos.x as int, pos.y as int);
                assert(self.area() == self.tiles.len());
            }
            let at: usize = self.xy_to_index(pos.x, pos.y);
            self.revealed_tiles[at] = true;
            self.visible_tiles[at] = true;
            proof {
                let shorter = seen@.take(k as int);
                let longer = seen@.take(k + 1);
                assert(longer == shorter.push(pos));
                assert forall|idx: int| 0 <= idx < self.area() implies #[trigger]
                    self.visible_tiles@[idx] == names_cell(longer, self.cols as int, idx) by {
                    lemma_names_cell_push(shorter, pos, self.cols as int, idx);
                    assert(before.visible_tiles@[idx] == names_cell(
                        shorter,
                        self.cols as int,
                        idx,
                    ));
                }
                assert forall|idx: int| 0 <= idx < self.area() implies #[trigger]
                    self.revealed_tiles@[idx] == (old(self).revealed_tiles@[idx] || names_cell(
                    longer,
                    self.cols as int,
                    idx,
                )) by {
                    lemma_names_cell_push(shorter, pos, self.cols as int, idx);
                    assert(before.revealed_tiles@[idx] == (old(self).revealed_tiles@[idx]
                        || names_cell(shorter, self.cols as int, idx)));
                }
            }
            k += 1;
        }
        assert(seen@.take(k as int) == seen@);
    }
}

/// Takes a freshly computed field of view for the player: the viewshed holds the
/// cells of it that lie on the grid and is no longer dirty, and the grid shows
/// exactly those cells as visible and remembers them as revealed.
pub fn refresh_player_view(map: &mut Grid, viewshed: &mut Viewshed, cells: &Vec<(i32, i32)>)
    requires
        old(map).wf(),
    ensures
        final(map).wf(),
        final(map).same_but_seen(old(map)),
        !final(viewshed).dirty,
        final(viewshed).range == old(viewshed).range,
        final(viewshed).visible_tiles@ == clipped(
            cells@,
            final(map).cols as int,
            final(map).rows as int,
        ),
        forall|idx: int|
            0 <= idx < final(map).area() ==> #[trigger] final(map).visible_tiles@[idx]
                == names_cell(final(viewshed).visible_tiles@, final(map).cols as int, idx),
        forall|idx: int|
            0 <= idx < final(map).area() ==> #[trigger] final(map).revealed_tiles@[idx] == (old(
                map,
            ).revealed_tiles@[idx] || final(map).visible_tiles@[idx]),
{
    viewshed.dirty = false;
    viewshed.visible_tiles = clip_to_grid(cells, map.cols, map.rows);
    proof {
        assert forall|j: int| 0 <= j < viewshed.visible_tiles@.len() implies map.in_bounds(
            (#[trigger] viewshed.visible_tiles@[j]).x as int,
            viewshed.visible_tiles@[j].y as int,
        ) by {
            lemma_clipped_on_grid(cells@, map.cols as int, map.rows as int, j);
        }
    }
    map.show(&viewshed.visible_tiles);
}

/// Takes a freshly computed field of view for a monster: the viewshed holds the cells
/// of it that lie on the grid and is no longer dirty, and the monster is shown exactly
/// if the player currently sees the cell it stands on.
pub fn refresh_monster_view(map: &Grid, monster: &mut Actor, cells: &Vec<(i32, i32)>)
    requires
        map.wf(),
        map.in_bounds(old(monster).position.x as int, old(monster).position.y as int),
    ensures
        final(monster).same_but_view(old(monster)),
        !final(monster).viewshed.dirty,
        final(monster).viewshed.range == old(monster).viewshed.range,
        final(monster).viewshed.visible_tiles@ == clipped(cells@, map.cols as int, map.rows as int),
        final(monster).shown == map.visible_tiles@[map.spec_index(
            old(monster).position.x as int,
            old(monster).position.y as int,
        )],
{
    monster.viewshed.dirty = false;
    monster.viewshed.visible_tiles = clip_to_grid(cells, map.cols, map.rows);
    proof {
        lemma_cell_index(
            map.cols as int,
            map.rows as int,
            monster.position.x as int,
            monster.position.y as int,
        );
        assert(map.area() == map.tiles.len());
    }
    let at: usize = map.xy_to_index(monster.position.x, monster.position.y);
    monster.shown = map.visible_tiles[at];
}

/// Whether `tiles` is what an actor at `position` with sight range `range` sees on
/// `map`: the cells of its field of view, each once, in some order.
pub open spec fn is_view_of(
    tiles: Seq<Position>,
    position: Position,
    range: i32,
    map: &Grid,
) -> bool {
    exists|cells: Seq<(i32, i32)>|
        {
            &&& cells.no_duplicates()
            &&& cells.to_set() == fov_cells(
                position.x as int,
                position.y as int,
                range as int,
                map.cols as int,
                map.rows as int,
                map.opaque_cells(),
            )
            &&& #[trigger] clipped(cells, map.cols as int, map.rows as int) == tiles
        }
}

/// What holds of every view, whatever the walls are: each cell of it lies on the grid
/// and no further from the actor than the range, across and down, and the actor's own
/// cell is among them.
pub open spec fn in_sight_range(
    tiles: Seq<Position>,
    position: Position,
    range: i32,
    map: &Grid,
) -> bool {
    &&& tiles.contains(position)
    &&& forall|j: int|
        0 <= j < tiles.len() ==> {
            &&& map.in_bounds((#[trigger] tiles[j]).x as int, tiles[j].y as int)
            &&& within_range(tiles[j].x as int, position.x as int, range as int)
            &&& within_range(tiles[j].y as int, position.y as int, range as int)
        }
}

/// Every actor's sight range is one that a field of view is computed for.
pub open spec fn ranges_in_limit(actors: Seq<Actor>) -> bool {
    forall|i: int|
        0 <= i < actors.len() ==> -MAX_SIGHT_RANGE <= (#[trigger] actors[i]).viewshed.range
            <= MAX_SIGHT_RANGE
}

/// Cells that lie within the range of an actor and have the actor's own cell among
/// them are, once clipped, a view in the range of the actor.
pub proof fn lemma_view_in_range(
    cells: Seq<(i32, i32)>,
    position: Position,
    range: i32,
    map: &Grid,
)
    requires
        map.in_bounds(position.x as int, position.y as int),
        position.x <= i32::MAX,
        position.y <= i32::MAX,
        cells.contains((position.x as i32, position.y as i32)),
        forall|i: int|
            0 <= i < cells.len() ==> within_range(
                (#[trigger] cells[i]).0 as int,
                position.x as int,
                range as int,
            ) && within_range(cells[i].1 as int, position.y as int, range as int),
    ensures
        in_sight_range(clipped(cells, map.cols as int, map.rows as int), position, range, map),
{
    let tiles = clipped(cells, map.cols as int, map.rows as int);
    let own = (position.x as i32, position.y as i32);
    let at = choose|i: int| 0 <= i < cells.len() && cells[i] == own;
    lemma_clipped_keeps(cells, map.cols as int, map.rows as int, at);
    assert forall|j: int| 0 <= j < tiles.len() implies {
        &&& map.in_bounds((#[trigger] tiles[j]).x as int, tiles[j].y as int)
        &&& within_range(tiles[j].x as int, position.x as int, range as int)
        &&& within_range(tiles[j].y as int, position.y as int, range as int)
    } by {
        let i = lemma_clipped_from(cells, map.cols as int, map.rows as int, j);
        assert(within_range(cells[i].0 as int, position.x as int, range as int));
    }
}

/// Whether views can be recomputed for `actors` on `map`: the grid fits the
/// computation, every actor stands on it, and every sight range is within the limit.
pub fn can_update_view(map: &Grid, actors: &Vec<Actor>) -> (ok: bool)
    ensures
        ok == (map.fits_sight() && all_on_grid(actors@, map) && ranges_in_limit(actors@)),
{
    if !map.is_well_formed() {
        return false;
    }
    proof {
        assert(map.area() == map.tiles.len());
    }
    if map.cols > i32::MAX as usize || map.rows > i32::MAX as usize || map.tiles.len()
        > i32::MAX as usize {
        return false;
    }
    if !stand_on_grid(actors, map) {
        return false;
    }
    let mut i: usize = 0;
    while i < actors.len()
        invariant
            i <= actors@.len(),
            forall|j: int|
                0 <= j < i ==> -MAX_SIGHT_RANGE <= (#[trigger] actors@[j]).viewshed.range
                    <= MAX_SIGHT_RANGE,
        decreases actors@.len() - i,
    {
        let range: i32 = actors[i].viewshed.range;
        if range < -MAX_SIGHT_RANGE || range > MAX_SIGHT_RANGE {
            return false;
        }
        i += 1;
    }
    true
}

/// What a view update does to the player `before`, on a grid that it leaves as `map`.
pub open spec fn player_view_updated(
    before: &Actor,
    after: &Actor,
    was: &Grid,
    map: &Grid,
) -> bool {
    if before.viewshed.dirty {
        &&& after.same_but_view(before)
        &&& after.shown == before.shown
        &&& after.viewshed.range == before.viewshed.range
        &&& !after.viewshed.dirty
        &&& is_view_of(after.viewshed.visible_tiles@, before.position, before.viewshed.range, map)
        &&& in_sight_range(
            after.viewshed.visible_tiles@,
            before.position,
            before.viewshed.range,
            map,
        )
        &&& forall|idx: int|
            0 <= idx < map.area() ==> #[trigger] map.visible_tiles@[idx] == names_cell(
                after.viewshed.visible_tiles@,
                map.cols as int,
                idx,
            )
        &&& forall|idx: int|
            0 <= idx < map.area() ==> #[trigger] map.revealed_tiles@[idx] == (
            was.revealed_tiles@[idx] || map.visible_tiles@[idx])
    } else {
        &&& *after == *before
        &&& map.visible_tiles@ == was.visible_tiles@
        &&& map.revealed_tiles@ == was.revealed_tiles@
    }
}

/// What a view update does to the monster `before`, on a grid that it leaves as `map`.
pub open spec fn monster_view_updated(before: &Actor, after: &Actor, map: &Grid) -> bool {
    if before.viewshed.dirty {
        &&& after.same_but_view(before)
        &&& after.viewshed.range == before.viewshed.range
        &&& !after.viewshed.dirty
        &&& is_view_of(after.viewshed.visible_tiles@, before.position, before.viewshed.range, map)
        &&& in_sight_range(
            after.viewshed.visible_tiles@,
            before.position,
            before.viewshed.range,
            map,
        )
        &&& after.shown == map.visible_tiles@[map.spec_index(
            before.position.x as int,
            before.position.y as int,
        )]
    } else {
        *after == *before
    }
}

/// Recomputes the views that are dirty. Without a player nothing happens. With one,
/// a dirty player's view is recomputed first and decides what the grid shows as
/// visible and remembers as revealed; then each dirty monster's view is recomputed,
/// and the monster is shown exactly if the player now sees its cell.
pub fn update_view(map: &mut Grid, actors: &mut Vec<Actor>)
    requires
        old(map).fits_sight(),
        all_on_grid(old(actors)@, old(map)),
        ranges_in_limit(old(actors)@),
    ensures
        final(map).wf(),
        final(map).same_but_seen(old(map)),
        final(actors)@.len() == old(actors)@.len(),
        index_of_player(old(actors)@) >= old(actors)@.len() ==> {
            &&& final(actors)@ == old(actors)@
            &&& final(map).visible_tiles@ == old(map).visible_tiles@
            &&& final(map).revealed_tiles@ == old(map).revealed_tiles@
        },
        index_of_player(old(actors)@) < old(actors)@.len() ==> {
            &&& forall|i: int|
                0 <= i < old(actors)@.len() && !(#[trigger] old(actors)@[i]).is_player
                    ==> monster_view_updated(&old(actors)@[i], &final(actors)@[i], final(map))
            &&& forall|i: int|
                0 <= i < old(actors)@.len() && (#[trigger] old(actors)@[i]).is_player && i
                    != index_of_player(old(actors)@) ==> final(actors)@[i] == old(actors)@[i]
            &&& player_view_updated(
                &old(actors)@[index_of_player(old(actors)@)],
                &final(actors)@[index_of_player(old(actors)@)],
                old(map),
                final(map),
            )
        },
{
    let found = find_player(actors);
    let at: usize = match found {
        Some(at) => at,
        None => {
            return ;
        },
    };
    proof {
        lemma_index_of_player(actors@);
    }
    if actors[at].viewshed.dirty {
        let pos: Position = actors[at].position;
        let range: i32 = actors[at].viewshed.range;
        let cells = field_of_view(pos.x as i32, pos.y as i32, range, map);
        refresh_player_view(map, &mut actors[at].viewshed, &cells);
        proof {
            assert(map.opaque_cells() == old(map).opaque_cells());
            assert(clipped(cells@, map.cols as int, map.rows as int)
                == actors@[at as int].viewshed.visible_tiles@);
            lemma_view_in_range(cells@, pos, range, map);
        }
    }
    let ghost seen = *actors;
    proof {
        assert(player_view_updated(&old(actors)@[at as int], &seen@[at as int], old(map), map));
        assert forall|j: int| 0 <= j < seen@.len() && j != at implies seen@[j] == old(
            actors,
        )@[j] by {}
        assert forall|j: int| 0 <= j < seen@.len() implies map.in_bounds(
            (#[trigger] seen@[j]).position.x as int,
            seen@[j].position.y as int,
        ) && -MAX_SIGHT_RANGE <= seen@[j].viewshed.range <= MAX_SIGHT_RANGE by {
            assert(seen@[j].position == old(actors)@[j].position);
            assert(seen@[j].viewshed.range == old(actors)@[j].viewshed.range);
        }
    }
    let mut i: usize = 0;
    while i < actors.len()
        invariant
            i <= actors@.len(),
            actors@.len() == seen@.len(),
            map.fits_sight(),
            all_on_grid(seen@, map),
            ranges_in_limit(seen@),
            forall|j: int| i <= j < actors@.len() ==> actors@[j] == seen@[j],
            forall|j: int|
                0 <= j < i && !(#[trigger] seen@[j]).is_player ==> monster_view_updated(
                    &seen@[j],
                    &actors@[j],
                    map,
                ),
            forall|j: int|
                0 <= j < i && (#[trigger] seen@[j]).is_player ==> actors@[j] == seen@[j],
        decreases actors@.len() - i,
    {
        proof {
            assert(actors@[i as int] == seen@[i as int]);
            assert(map.in_bounds(
                seen@[i as int].position.x as int,
                seen@[i as int].position.y as int,
            ));
        }
        if !actors[i].is_player && actors[i].viewshed.dirty {
            let pos: Position = actors[i].position;
            let range: i32 = actors[i].viewshed.range;
            let cells = field_of_view(pos.x as i32, pos.y as i32, range, map);
            refresh_monster_view(map, &mut actors[i], &cells);
            proof {
                assert(clipped(cells@, map.cols as int, map.rows as int)
                    == actors@[i as int].viewshed.visible_tiles@);
                lemma_view_in_range(cells@, pos, range, map);
            }
        }
        i += 1;
    }
    proof {
        assert forall|j: int|
            0 <= j < old(actors)@.len() && !(#[trigger] old(actors)@[j]).is_player
            implies monster_view_updated(&old(actors)@[j], &actors@[j], map) by {
            assert(seen@[j] == old(actors)@[j]);
        }
        assert forall|j: int|
            0 <= j < old(actors)@.len() && (#[trigger] old(actors)@[j]).is_player && j
                != at implies actors@[j] == old(actors)@[j] by {
            assert(seen@[j] == old(actors)@[j]);
        }
        assert(seen@[at as int].is_player);
    }
}

} // verus!
