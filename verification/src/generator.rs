//! Level generation: random room candidates, and the carving of rooms and corridors.

use crate::map::{between, Grid, Rect, Tile};
use rand::rngs::StdRng;
use rand::Rng;
use vstd::prelude::*;

verus! {

/// Number of room candidates tried per level.
pub const MAX_ROOMS: usize = 20;

/// Smallest extent drawn for a room.
pub const MIN_SIZE: usize = 6;

/// Bound that a room's drawn extent stays below.
pub const MAX_SIZE: usize = 10;

/// One room candidate: where it would lie, and which leg of the corridor to the
/// previous room is dug first.
#[derive(Debug, PartialEq, Eq, Clone, Copy, Structural)]
pub struct RoomDraw {
    pub room: Rect,
    pub horizontal_first: bool,
}

/// Whether `room` overlaps one of `rooms`.
pub open spec fn overlaps_any(room: Rect, rooms: Seq<Rect>) -> bool {
    exists|i: int| 0 <= i < rooms.len() && room.spec_intersect(&#[trigger] rooms[i])
}

/// The rooms kept from `draws`, in the order of their acceptance: a candidate is kept
/// unless it overlaps a room kept before it.
pub open spec fn accepted_rooms(draws: Seq<RoomDraw>) -> Seq<Rect>
    decreases draws.len(),
{
    if draws.len() == 0 {
        Seq::empty()
    } else {
        let kept = accepted_rooms(draws.drop_last());
        if overlaps_any(draws.last().room, kept) {
            kept
        } else {
            kept.push(draws.last().room)
        }
    }
}

/// Whether `(x, y)` lies on the L-shaped corridor between the centers of `prev` and
/// `next`: the horizontal leg runs in the row of `prev`'s center if it is dug first,
/// else in the row of `next`'s center.
pub open spec fn on_corridor(
    prev: Rect,
    next: Rect,
    horizontal_first: bool,
    x: int,
    y: int,
) -> bool {
    let (px, py) = prev.spec_center();
    let (nx, ny) = next.spec_center();
    if horizontal_first {
        (y == py && between(px, nx, x)) || (x == nx && between(py, ny, y))
    } else {
        (x == px && between(py, ny, y)) || (y == ny && between(px, nx, x))
    }
}

/// What accepting `room` digs out, given the rooms kept so far.
pub open spec fn dug_by(
    room: Rect,
    horizontal_first: bool,
    kept: Seq<Rect>,
    x: int,
    y: int,
) -> bool {
    room.contains(x, y) || (kept.len() > 0 && on_corridor(
        kept.last(),
        room,
        horizontal_first,
        x,
        y,
    ))
}

/// Whether processing `draws` in order digs out `(x, y)`.
pub open spec fn carved(draws: Seq<RoomDraw>, x: int, y: int) -> bool
    decreases draws.len(),
{
    if draws.len() == 0 {
        false
    } else {
        let kept = accepted_rooms(draws.drop_last());
        let d = draws.last();
        carved(draws.drop_last(), x, y) || (!overlaps_any(d.room, kept) && dug_by(
            d.room,
            d.horizontal_first,
            kept,
            x,
            y,
        ))
    }
}

/// The outermost rows and columns of a `cols` by `rows` grid.
pub open spec fn on_border(cols: int, rows: int, x: int, y: int) -> bool {
    x == 0 || y == 0 || x == cols - 1 || y == rows - 1
}

/// The tile that generation from `draws` leaves at `(x, y)`: floor where something was
/// dug, except on the border, which is wall whatever was dug there.
pub open spec fn generated_tile(
    cols: int,
    rows: int,
    draws: Seq<RoomDraw>,
    x: int,
    y: int,
) -> Tile {
    if !on_border(cols, rows, x, y) && carved(draws, x, y) {
        Tile::Floor
    } else {
        Tile::Wall
    }
}

/// A rectangle with at least one cell, all of them cells of a `cols` by `rows` grid.
pub open spec fn room_in_grid(room: Rect, cols: int, rows: int) -> bool {
    room.x1 <= room.x2 < cols && room.y1 <= room.y2 < rows
}

/// A candidate as the generator draws it: extents from `MIN_SIZE` up to but not
/// including `MAX_SIZE`, placed so that a ring of border cells stays around it.
pub open spec fn draw_ok(d: RoomDraw, cols: int, rows: int) -> bool {
    &&& 1 <= d.room.x1
    &&& 1 <= d.room.y1
    &&& MIN_SIZE <= d.room.x2 - d.room.x1 < MAX_SIZE
    &&& MIN_SIZE <= d.room.y2 - d.room.y1 < MAX_SIZE
    &&& d.room.x2 + 1 < cols
    &&& d.room.y2 + 1 < rows
}

pub open spec fn all_in_grid(draws: Seq<RoomDraw>, cols: int, rows: int) -> bool {
    forall|i: int| 0 <= i < draws.len() ==> room_in_grid((#[trigger] draws[i]).room, cols, rows)
}

pub open spec fn all_draws_ok(draws: Seq<RoomDraw>, cols: int, rows: int) -> bool {
    forall|i: int| 0 <= i < draws.len() ==> draw_ok(#[trigger] draws[i], cols, rows)
}

/// A room overlaps one of a list with one more room exactly if it overlaps one of the
/// shorter list or the added room.
pub proof fn lemma_overlaps_push(room: Rect, rooms: Seq<Rect>, added: Rect)
    ensures
        overlaps_any(room, rooms.push(added)) == (overlaps_any(room, rooms) || room.spec_intersect(
            &added,
        )),
{
    let longer = rooms.push(added);
    if overlaps_any(room, rooms) {
        let i = choose|i: int| 0 <= i < rooms.len() && room.spec_intersect(&#[trigger] rooms[i]);
        assert(longer[i] == rooms[i]);
    }
    if room.spec_intersect(&added) {
        assert(longer[rooms.len() as int] == added);
    }
    if overlaps_any(room, longer) {
        let i = choose|i: int| 0 <= i < longer.len() && room.spec_intersect(&#[trigger] longer[i]);
        if i < rooms.len() {
            assert(longer[i] == rooms[i]);
        }
    }
}

#[verifier::external_type_specification]
#[verifier::external_body]
pub struct ExStdRng(StdRng);

/// `rand::Rng::gen_range` on the half-open range `low..high`. The call panics on an
/// empty range, which the precondition excludes; of the value drawn it is only known
/// that it lies in the range.
#[verifier::external_body]
fn gen_range(rng: &mut StdRng, low: usize, high: usize) -> (value: usize)
    requires
        low < high,
    ensures
        low <= value < high,
{
    rng.gen_range(low..high)
}

/// Draws `MAX_ROOMS` room candidates for a `cols` by `rows` grid: each extent from
/// `MIN_SIZE` up to but not including `MAX_SIZE`, the corner so that the room keeps
/// clear of the border, and a coin for the order of the corridor's legs.
pub fn draw_rooms(cols: usize, rows: usize, rng: &mut StdRng) -> (draws: Vec<RoomDraw>)
    requires
        cols >= MAX_SIZE + 2,
        rows >= MAX_SIZE + 2,
    ensures
        draws@.len() == MAX_ROOMS,
        all_draws_ok(draws@, cols as int, rows as int),
{
    let mut draws: Vec<RoomDraw> = Vec::new();
    let mut i: usize = 0;
    while i < MAX_ROOMS
        invariant
            i <= MAX_ROOMS,
            cols >= MAX_SIZE + 2,
            rows >= MAX_SIZE + 2,
            draws@.len() == i,
            all_draws_ok(draws@, cols as int, rows as int),
        decreases MAX_ROOMS - i,
    {
        let w: usize = gen_range(rng, MIN_SIZE, MAX_SIZE);
        let h: usize = gen_range(rng, MIN_SIZE, MAX_SIZE);
        let x: usize = gen_range(rng, 1, cols - w - 1);
        let y: usize = gen_range(rng, 1, rows - h - 1);
        let horizontal_first: bool = gen_range(rng, 0, 2) == 1;
        let d = RoomDraw { room: Rect::new(x, y, w, h), horizontal_first };
        let ghost before = draws@;
        draws.push(d);
        proof {
            assert forall|j: int| 0 <= j < draws@.len() implies draw_ok(
                #[trigger] draws@[j],
                cols as int,
                rows as int,
            ) by {
                if j < before.len() {
                    assert(draws@[j] == before[j]);
                }
            }
        }
        i += 1;
    }
    draws
}

/// Generates a level with rooms and corridors: draws the candidates from `rng` and
/// carves them. Which level comes out is up to `rng`; whatever it is, it is the outcome
/// of `MAX_ROOMS` candidates that each meet `draw_ok`.
pub fn new_map_rooms_and_corridors(map: &mut Grid, rng: &mut StdRng)
    requires
        old(map).wf(),
        old(map).cols >= MAX_SIZE + 2,
        old(map).rows >= MAX_SIZE + 2,
    ensures
        final(map).wf(),
        final(map).rooms_in_grid(),
        final(map).same_but_layout(old(map)),
        final(map).is_generated(),
{
    let draws = draw_rooms(map.cols, map.rows, rng);
    proof {
        lemma_draws_in_grid(draws@, map.cols as int, map.rows as int);
    }
    map.carve_rooms(&draws);
}

/// Candidates as the generator draws them lie in the grid.
pub proof fn lemma_draws_in_grid(draws: Seq<RoomDraw>, cols: int, rows: int)
    requires
        all_draws_ok(draws, cols, rows),
    ensures
        all_in_grid(draws, cols, rows),
{
    assert forall|i: int| 0 <= i < draws.len() implies room_in_grid(
        (#[trigger] draws[i]).room,
        cols,
        rows,
    ) by {
        assert(draw_ok(draws[i], cols, rows));
    }
}

/// Whether every candidate has a cell and lies in a `cols` by `rows` grid.
pub fn draws_in_grid(draws: &Vec<RoomDraw>, cols: usize, rows: usize) -> (ok: bool)
    ensures
        ok == all_in_grid(draws@, cols as int, rows as int),
{
    let mut i: usize = 0;
    while i < draws.len()
        invariant
            i <= draws@.len(),
            forall|j: int|
                0 <= j < i ==> room_in_grid((#[trigger] draws@[j]).room, cols as int, rows as int),
        decreases draws@.len() - i,
    {
        let room: Rect = draws[i].room;
        if !(room.x1 <= room.x2 && room.x2 < cols && room.y1 <= room.y2 && room.y2 < rows) {
            return false;
        }
        i += 1;
    }
    true
}

/// There are no more rooms than candidates, and the first candidate is always kept.
pub proof fn lemma_rooms_count(draws: Seq<RoomDraw>)
    ensures
        accepted_rooms(draws).len() <= draws.len(),
        draws.len() > 0 ==> accepted_rooms(draws).len() > 0 && accepted_rooms(draws)[0]
            == draws[0].room,
    decreases draws.len(),
{
    if draws.len() > 0 {
        lemma_rooms_count(draws.drop_last());
        if draws.len() > 1 {
            assert(draws.drop_last()[0] == draws[0]);
        }
    }
}

/// No two kept rooms overlap, whatever the candidates were.
pub proof fn lemma_rooms_disjoint(draws: Seq<RoomDraw>, i: int, j: int)
    requires
        0 <= i < accepted_rooms(draws).len(),
        0 <= j < accepted_rooms(draws).len(),
        i != j,
    ensures
        !accepted_rooms(draws)[i].spec_intersect(&accepted_rooms(draws)[j]),
    decreases draws.len(),
{
    if draws.len() > 0 {
        let kept = accepted_rooms(draws.drop_last());
        if i < kept.len() && j < kept.len() {
            lemma_rooms_disjoint(draws.drop_last(), i, j);
        } else if i < kept.len() {
            assert(!draws.last().room.spec_intersect(&kept[i]));
        } else {
            assert(!draws.last().room.spec_intersect(&kept[j]));
        }
    }
}

/// No two rooms of a generated level overlap.
pub proof fn lemma_level_rooms_disjoint(g: Grid, draws: Seq<RoomDraw>, i: int, j: int)
    requires
        g.is_outcome_of(draws),
        0 <= i < g.rooms@.len(),
        0 <= j < g.rooms@.len(),
        i != j,
    ensures
        !g.rooms@[i].spec_intersect(&g.rooms@[j]),
{
    lemma_rooms_disjoint(draws, i, j);
}

/// In a level generated from any candidates, each cell of the outermost rows and
/// columns is a wall.
pub proof fn lemma_border_is_wall(g: Grid, draws: Seq<RoomDraw>, x: int, y: int)
    requires
        g.is_outcome_of(draws),
        g.in_bounds(x, y),
        on_border(g.cols as int, g.rows as int, x, y),
    ensures
        g.tile_at(x, y) == Tile::Wall,
{
}

/// Generation is a function of the dimensions and the candidates: two levels of one
/// size made from the same candidates have the same rooms and the same tiles.
pub proof fn lemma_same_draws_same_level(a: Grid, b: Grid, draws: Seq<RoomDraw>)
    requires
        a.wf(),
        b.wf(),
        a.cols == b.cols,
        a.rows == b.rows,
        a.is_outcome_of(draws),
        b.is_outcome_of(draws),
    ensures
        a.rooms@ == b.rooms@,
        a.tiles@ == b.tiles@,
{
    assert forall|i: int| 0 <= i < a.tiles@.len() implies a.tiles@[i] == b.tiles@[i] by {
        assert(a.cols > 0) by (nonlinear_arith)
            requires
                0 <= i < a.cols * a.rows,
        ;
        crate::map::lemma_index_cell(a.cols as int, a.rows as int, i);
        let x = i % (a.cols as int);
        let y = i / (a.cols as int);
        assert(a.tile_at(x, y) == b.tile_at(x, y));
    }
}

impl Grid {
    /// The grid is a level as the generator makes them: the outcome of `MAX_ROOMS`
    /// candidates that each meet `draw_ok`.
    pub open spec fn is_generated(&self) -> bool {
        exists|draws: Seq<RoomDraw>|
            draws.len() == MAX_ROOMS && all_draws_ok(draws, self.cols as int, self.rows as int)
                && #[trigger] self.is_outcome_of(draws)
    }

    /// Every room on the list has a cell and lies in the grid.
    pub open spec fn rooms_in_grid(&self) -> bool {
        forall|i: int|
            0 <= i < self.rooms@.len() ==> room_in_grid(
                #[trigger] self.rooms@[i],
                self.cols as int,
                self.rows as int,
            )
    }

    /// The grid is what generation from `draws` produces: the kept rooms on the list,
    /// and each cell's tile as `generated_tile` gives it.
    pub open spec fn is_outcome_of(&self, draws: Seq<RoomDraw>) -> bool {
        &&& self.rooms@ == accepted_rooms(draws)
        &&& forall|x: int, y: int|
            self.in_bounds(x, y) ==> #[trigger] self.tile_at(x, y) == generated_tile(
                self.cols as int,
                self.rows as int,
                draws,
                x,
                y,
            )
    }

    /// Same dimensions, flags, occupancy index and tileset as `other`: all that
    /// generation leaves alone.
    pub open spec fn same_but_layout(&self, other: &Grid) -> bool {
        &&& self.cols == other.cols
        &&& self.rows == other.rows
        &&& self.tile_size == other.tile_size
        &&& self.tileset_grids == other.tileset_grids
        &&& self.revealed_tiles@ == other.revealed_tiles@
        &&& self.visible_tiles@ == other.visible_tiles@
        &&& self.blocked@ == other.blocked@
        &&& self.tile_content@ == other.tile_content@
    }

    /// Whether `room` overlaps a room already on the list.
    pub fn overlaps_a_room(&self, room: &Rect) -> (overlap: bool)
        ensures
            overlap == overlaps_any(*room, self.rooms@),
    {
        let mut ok: bool = true;
        let mut i: usize = 0;
        while i < self.rooms.len()
            invariant
                i <= self.rooms@.len(),
                ok == !overlaps_any(*room, self.rooms@.take(i as int)),
            decreases self.rooms@.len() - i,
        {
            proof {
                lemma_overlaps_push(*room, self.rooms@.take(i as int), self.rooms@[i as int]);
                assert(self.rooms@.take(i + 1) == self.rooms@.take(i as int).push(
                    self.rooms@[i as int],
                ));
            }
            if room.intersect(&self.rooms[i]) {
                ok = false;
            }
            i += 1;
        }
        assert(self.rooms@.take(i as int) == self.rooms@);
        !ok
    }

    /// Tries one room candidate. A candidate that overlaps a room already on the list is
    /// skipped and the grid stays as it is. Any other is dug out as floor, joined to the
    /// room accepted last by an L-shaped corridor between the two centers, and put on
    /// the list.
    pub fn place_room(&mut self, candidate: Rect, horizontal_first: bool) -> (accepted: bool)
        requires
            old(self).wf(),
            old(self).rooms_in_grid(),
            room_in_grid(candidate, old(self).cols as int, old(self).rows as int),
        ensures
            accepted == !overlaps_any(candidate, old(self).rooms@),
            final(self).wf(),
            final(self).rooms_in_grid(),
            final(self).same_but_layout(old(self)),
            !accepted ==> final(self).rooms@ == old(self).rooms@,
            !accepted ==> final(self).tiles@ == old(self).tiles@,
            accepted ==> final(self).rooms@ == old(self).rooms@.push(candidate),
            accepted ==> forall|x: int, y: int|
                final(self).in_bounds(x, y) ==> #[trigger] final(self).tile_at(x, y) == (
                if dug_by(candidate, horizontal_first, old(self).rooms@, x, y) {
                    Tile::Floor
                } else {
                    old(self).tile_at(x, y)
                }),
    {
        if self.overlaps_a_room(&candidate) {
            return false;
        }
        self.set_rect(&candidate, Tile::Floor);
        let ghost dug_room = *self;
        let ghost dug_first = *self;
        if self.rooms.len() > 0 {
            let (new_x, new_y) = candidate.center();
            let prev: Rect = self.rooms[self.rooms.len() - 1];
            let (prev_x, prev_y) = prev.center();
            assert(room_in_grid(prev, self.cols as int, self.rows as int));
            if horizontal_first {
                self.set_horizontal_line(prev_x, new_x, prev_y, Tile::Floor);
                proof {
                    dug_first = *self;
                }
                self.set_vertical_line(new_x, prev_y, new_y, Tile::Floor);
            } else {
                self.set_vertical_line(prev_x, prev_y, new_y, Tile::Floor);
                proof {
                    dug_first = *self;
                }
                self.set_horizontal_line(prev_x, new_x, new_y, Tile::Floor);
            }
        }
        let ghost dug_all = *self;
        self.rooms.push(candidate);
        proof {
            assert forall|x: int, y: int| self.in_bounds(x, y) implies #[trigger] self.tile_at(x, y)
                == (if dug_by(candidate, horizontal_first, old(self).rooms@, x, y) {
                Tile::Floor
            } else {
                old(self).tile_at(x, y)
            }) by {
                // back through the three carvings to the tile that was there
                assert(self.tile_at(x, y) == dug_all.tile_at(x, y));
                assert(dug_first.in_bounds(x, y) && dug_room.in_bounds(x, y));
                assert(dug_first.tile_at(x, y) == Tile::Floor || dug_first.tile_at(x, y)
                    == dug_room.tile_at(x, y));
                assert(dug_room.tile_at(x, y) == Tile::Floor || dug_room.tile_at(x, y) == old(
                    self,
                ).tile_at(x, y));
            }
            assert forall|i: int| 0 <= i < self.rooms@.len() implies room_in_grid(
                #[trigger] self.rooms@[i],
                self.cols as int,
                self.rows as int,
            ) by {
                if i < old(self).rooms@.len() {
                    assert(self.rooms@[i] == old(self).rooms@[i]);
                }
            }
        }
        true
    }

    /// Turns the four outermost lines of the grid into wall.
    pub fn wall_border(&mut self)
        requires
            old(self).wf(),
        ensures
            final(self).wf(),
            final(self).same_but_tiles(old(self)),
            forall|x: int, y: int|
                final(self).in_bounds(x, y) ==> #[trigger] final(self).tile_at(x, y) == (
                if on_border(final(self).cols as int, final(self).rows as int, x, y) {
                    Tile::Wall
                } else {
                    old(self).tile_at(x, y)
                }),
    {
        if self.cols == 0 || self.rows == 0 {
            return ;
        }
        let cols: usize = self.cols;
        let rows: usize = self.rows;
        self.set_horizontal_line(0, cols - 1, 0, Tile::Wall);
        self.set_horizontal_line(0, cols - 1, rows - 1, Tile::Wall);
        self.set_vertical_line(0, 0, rows - 1, Tile::Wall);
        self.set_vertical_line(cols - 1, 0, rows - 1, Tile::Wall);
    }

    /// Builds the level that the candidates in `draws` give, tried in order: the grid is
    /// filled with wall, each candidate goes through `place_room`, and at the end the
    /// border is walled again, whatever was dug there. The result depends on the
    /// dimensions and on `draws` alone.
    pub fn carve_rooms(&mut self, draws: &Vec<RoomDraw>)
        requires
            old(self).wf(),
            all_in_grid(draws@, old(self).cols as int, old(self).rows as int),
        ensures
            final(self).wf(),
            final(self).rooms_in_grid(),
            final(self).same_but_layout(old(self)),
            final(self).is_outcome_of(draws@),
    {
        self.rooms.clear();
        self.fill(Tile::Wall);
        assert(draws@.take(0) == Seq::<RoomDraw>::empty());
        let mut k: usize = 0;
        while k < draws.len()
            invariant
                k <= draws@.len(),
                self.wf(),
                self.rooms_in_grid(),
                self.same_but_layout(old(self)),
                all_in_grid(draws@, self.cols as int, self.rows as int),
                self.rooms@ == accepted_rooms(draws@.take(k as int)),
                forall|x: int, y: int|
                    self.in_bounds(x, y) ==> #[trigger] self.tile_at(x, y) == (if carved(
                        draws@.take(k as int),
                        x,
                        y,
                    ) {
                        Tile::Floor
                    } else {
                        Tile::Wall
                    }),
            decreases draws@.len() - k,
        {
            let d: RoomDraw = draws[k];
            let ghost before = *self;
            self.place_room(d.room, d.horizontal_first);
            proof {
                let done = draws@.take(k + 1);
                assert(done.drop_last() == draws@.take(k as int));
                assert(done.last() == d);
                assert forall|x: int, y: int| self.in_bounds(x, y) implies #[trigger] self.tile_at(
                    x,
                    y,
                ) == (if carved(done, x, y) {
                    Tile::Floor
                } else {
                    Tile::Wall
                }) by {
                    assert(before.in_bounds(x, y));
                    assert(before.tile_at(x, y) == (if carved(done.drop_last(), x, y) {
                        Tile::Floor
                    } else {
                        Tile::Wall
                    }));
                }
            }
            k += 1;
        }
        assert(draws@.take(k as int) == draws@);
        let ghost dug = *self;
        self.wall_border();
        proof {
            assert forall|x: int, y: int| self.in_bounds(x, y) implies #[trigger] self.tile_at(
                x,
                y,
            ) == generated_tile(self.cols as int, self.rows as int, draws@, x, y) by {
                assert(dug.in_bounds(x, y));
                assert(dug.tile_at(x, y) == (if carved(draws@, x, y) {
                    Tile::Floor
                } else {
                    Tile::Wall
                }));
            }
        }
    }

    /// Overwrites every cell with `tile`.
    pub fn fill(&mut self, tile: Tile)
        requires
            old(self).wf(),
        ensures
            final(self).wf(),
            final(self).same_but_tiles(old(self)),
            forall|i: int| 0 <= i < final(self).area() ==> final(self).tiles@[i] == tile,
            forall|x: int, y: int|
                final(self).in_bounds(x, y) ==> #[trigger] final(self).tile_at(x, y) == tile,
    {
        let n: usize = self.tiles.len();
        let mut i: usize = 0;
        while i < n
            invariant
                i <= n,
                n == self.tiles@.len(),
                self.wf(),
                self.same_but_tiles(old(self)),
                forall|j: int| 0 <= j < i ==> self.tiles@[j] == tile,
            decreases n - i,
        {
            self.tiles[i] = tile;
            i += 1;
        }
        proof {
            assert forall|x: int, y: int| self.in_bounds(x, y) implies #[trigger] self.tile_at(x, y)
                == tile by {
                crate::map::lemma_cell_index(self.cols as int, self.rows as int, x, y);
            }
        }
    }
}

} // verus!
