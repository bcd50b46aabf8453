//! Walks through the grid, and why every room of a generated level can be reached from
//! the first one.

use crate::generator::{
    accepted_rooms, all_draws_ok, carved, draw_ok, dug_by, on_corridor, RoomDraw,
};
use crate::map::{between, lemma_cell_index, Grid, Rect, Tile};
use crate::pathing::direction;
use crate::walks::{lemma_straight_column_walk, lemma_straight_row_walk};
use vstd::prelude::*;

verus! {

/// The exits listed for the first `m` directions stay where they are when more
/// directions are looked at.
pub proof fn lemma_exits_prefix(g: Grid, idx: int, m: int, n: int)
    requires
        0 <= m <= n,
    ensures
        g.exits_upto(idx, m).len() <= g.exits_upto(idx, n).len(),
        forall|j: int|
            0 <= j < g.exits_upto(idx, m).len() ==> g.exits_upto(idx, m)[j] == g.exits_upto(
                idx,
                n,
            )[j],
    decreases n,
{
    if m < n {
        lemma_exits_prefix(g, idx, m, n - 1);
    }
}

/// A neighbour that can be stepped onto is one step away.
pub proof fn lemma_step_to_neighbour(g: Grid, x: int, y: int, k: int)
    requires
        g.wf(),
        g.in_bounds(x, y),
        0 <= k < 8,
        g.exit_valid(x + direction(k).0, y + direction(k).1),
    ensures
        g.is_step(g.spec_index(x, y), g.spec_index(x + direction(k).0, y + direction(k).1)),
{
    let idx = g.spec_index(x, y);
    let nx = x + direction(k).0;
    let ny = y + direction(k).1;
    lemma_cell_index(g.cols as int, g.rows as int, x, y);
    lemma_cell_index(g.cols as int, g.rows as int, nx, ny);
    assert(g.area() == g.tiles.len());
    lemma_exits_prefix(g, idx, k + 1, 8);
    let at = g.exits_upto(idx, k).len() as int;
    assert(g.exits_upto(idx, k + 1)[at].0 == g.spec_index(nx, ny));
    assert(g.spec_exits(idx)[at].0 == g.spec_index(nx, ny));
}

/// Every cell of the grid is reachable from itself.
pub proof fn lemma_connected_to_itself(g: Grid, a: int)
    requires
        0 <= a < g.area(),
    ensures
        g.connected(a, a),
{
    let path = seq![a];
    assert(g.is_path(path));
    assert(path[0] == a && path.last() == a);
}

/// A walk can be extended by one step.
pub proof fn lemma_connected_then_step(g: Grid, a: int, b: int, c: int)
    requires
        g.connected(a, b),
        g.is_step(b, c),
    ensures
        g.connected(a, c),
{
    let path = choose|path: Seq<int>| #[trigger]
        g.is_path(path) && path[0] == a && path.last() == b;
    let longer = path.push(c);
    assert forall|i: int| 1 <= i < longer.len() implies g.is_step(
        longer[i - 1],
        #[trigger] longer[i],
    ) by {
        if i < path.len() {
            assert(g.is_step(path[i - 1], path[i]));
        }
    }
    assert(g.is_path(longer));
    assert(longer[0] == a && longer.last() == c);
}

/// Reachability is transitive.
pub proof fn lemma_connected_transitive(g: Grid, a: int, b: int, c: int)
    requires
        g.connected(a, b),
        g.connected(b, c),
    ensures
        g.connected(a, c),
{
    let second = choose|path: Seq<int>| #[trigger]
        g.is_path(path) && path[0] == b && path.last() == c;
    lemma_connected_along(g, a, second, second.len() - 1);
}

/// If the start of a walk is reachable from `a`, so is each cell on the walk.
proof fn lemma_connected_along(g: Grid, a: int, walk: Seq<int>, upto: int)
    requires
        g.is_path(walk),
        g.connected(a, walk[0]),
        0 <= upto < walk.len(),
    ensures
        g.connected(a, walk[upto]),
    decreases upto,
{
    if upto > 0 {
        lemma_connected_along(g, a, walk, upto - 1);
        assert(g.is_step(walk[upto - 1], walk[upto]));
        lemma_connected_then_step(g, a, walk[upto - 1], walk[upto]);
    }
}

/// Along a row whose cells between two columns can all be stepped onto, the cell in
/// the one column is reachable from the cell in the other: by the straight walk.
pub proof fn lemma_row_walk(g: Grid, y: int, from: int, to: int)
    requires
        g.wf(),
        g.in_bounds(from, y),
        forall|x: int| between(from, to, x) && x != from ==> g.exit_valid(x, y),
    ensures
        g.connected(g.spec_index(from, y), g.spec_index(to, y)),
{
    let path = lemma_straight_row_walk(g, y, from, to);
    assert(g.is_path(path) && path[0] == g.spec_index(from, y));
}

/// Along a column whose cells between two rows can all be stepped onto, the cell in
/// the one row is reachable from the cell in the other: by the straight walk.
pub proof fn lemma_column_walk(g: Grid, x: int, from: int, to: int)
    requires
        g.wf(),
        g.in_bounds(x, from),
        forall|y: int| between(from, to, y) && y != from ==> g.exit_valid(x, y),
    ensures
        g.connected(g.spec_index(x, from), g.spec_index(x, to)),
{
    let path = lemma_straight_column_walk(g, x, from, to);
    assert(g.is_path(path) && path[0] == g.spec_index(x, from));
}

/// A room that keeps clear of the border of a `cols` by `rows` grid.
pub open spec fn room_inside(room: Rect, cols: int, rows: int) -> bool {
    1 <= room.x1 <= room.x2 < cols - 1 && 1 <= room.y1 <= room.y2 < rows - 1
}

/// Rooms kept from candidates that keep clear of the border keep clear of it.
pub proof fn lemma_accepted_inside(draws: Seq<RoomDraw>, cols: int, rows: int, i: int)
    requires
        all_draws_ok(draws, cols, rows),
        0 <= i < accepted_rooms(draws).len(),
    ensures
        room_inside(accepted_rooms(draws)[i], cols, rows),
    decreases draws.len(),
{
    if draws.len() > 0 {
        let kept = accepted_rooms(draws.drop_last());
        assert(draw_ok(draws[draws.len() - 1], cols, rows));
        if i < kept.len() {
            assert forall|j: int| 0 <= j < draws.drop_last().len() implies draw_ok(
                #[trigger] draws.drop_last()[j],
                cols,
                rows,
            ) by {
                assert(draw_ok(draws[j], cols, rows));
            }
            lemma_accepted_inside(draws.drop_last(), cols, rows, i);
        }
    }
}

/// Whatever such candidates dig out keeps clear of the border.
pub proof fn lemma_carved_inside(draws: Seq<RoomDraw>, cols: int, rows: int, x: int, y: int)
    requires
        all_draws_ok(draws, cols, rows),
        carved(draws, x, y),
    ensures
        1 <= x < cols - 1,
        1 <= y < rows - 1,
    decreases draws.len(),
{
    let before = draws.drop_last();
    let kept = accepted_rooms(before);
    let d = draws.last();
    assert(draw_ok(draws[draws.len() - 1], cols, rows));
    assert forall|j: int| 0 <= j < before.len() implies draw_ok(
        #[trigger] before[j],
        cols,
        rows,
    ) by {
        assert(draw_ok(draws[j], cols, rows));
    }
    if carved(before, x, y) {
        lemma_carved_inside(before, cols, rows, x, y);
    } else if !d.room.contains(x, y) {
        lemma_accepted_inside(before, cols, rows, kept.len() - 1);
    }
}

/// The cells of a kept room are dug out.
pub proof fn lemma_room_carved(draws: Seq<RoomDraw>, i: int, x: int, y: int)
    requires
        0 <= i < accepted_rooms(draws).len(),
        accepted_rooms(draws)[i].contains(x, y),
    ensures
        carved(draws, x, y),
    decreases draws.len(),
{
    if draws.len() > 0 {
        let kept = accepted_rooms(draws.drop_last());
        if i < kept.len() {
            lemma_room_carved(draws.drop_last(), i, x, y);
        }
    }
}

/// Between each kept room and the one kept before it, one of the two L-shaped
/// corridors is dug out.
pub proof fn lemma_corridor_carved(draws: Seq<RoomDraw>, i: int) -> (horizontal_first: bool)
    requires
        1 <= i < accepted_rooms(draws).len(),
    ensures
        forall|x: int, y: int|
            on_corridor(
                accepted_rooms(draws)[i - 1],
                accepted_rooms(draws)[i],
                horizontal_first,
                x,
                y,
            ) ==> carved(draws, x, y),
    decreases draws.len(),
{
    let rooms = accepted_rooms(draws);
    let before = draws.drop_last();
    let kept = accepted_rooms(before);
    let d = draws.last();
    if i < kept.len() {
        let horizontal_first = lemma_corridor_carved(before, i);
        assert(rooms[i - 1] == kept[i - 1] && rooms[i] == kept[i]);
        assert forall|x: int, y: int|
            on_corridor(rooms[i - 1], rooms[i], horizontal_first, x, y) implies carved(
            draws,
            x,
            y,
        ) by {
            assert(carved(before, x, y));
        }
        horizontal_first
    } else {
        assert(rooms == kept.push(d.room));
        assert(rooms[i] == d.room && rooms[i - 1] == kept.last());
        assert forall|x: int, y: int|
            on_corridor(rooms[i - 1], rooms[i], d.horizontal_first, x, y) implies carved(
            draws,
            x,
            y,
        ) by {
            assert(dug_by(d.room, d.horizontal_first, kept, x, y));
        }
        d.horizontal_first
    }
}

impl Grid {
    /// Index of the center of the room with number `i`.
    pub open spec fn center_index(&self, i: int) -> int {
        self.spec_index(self.rooms@[i].spec_center().0, self.rooms@[i].spec_center().1)
    }
}

/// In a level generated from candidates that keep clear of the border, where nothing
/// but the walls blocks, a dug-out cell can be stepped onto.
proof fn lemma_carved_is_open(g: Grid, draws: Seq<RoomDraw>, x: int, y: int)
    requires
        g.wf(),
        all_draws_ok(draws, g.cols as int, g.rows as int),
        g.is_outcome_of(draws),
        g.blocked_by_walls_only(),
        carved(draws, x, y),
    ensures
        g.exit_valid(x, y),
        g.in_bounds(x, y),
{
    lemma_carved_inside(draws, g.cols as int, g.rows as int, x, y);
    lemma_cell_index(g.cols as int, g.rows as int, x, y);
    assert(g.tile_at(x, y) == Tile::Floor);
    assert(g.blocked@[g.spec_index(x, y)] == (g.tiles@[g.spec_index(x, y)] == Tile::Wall));
}

/// In such a level each room's center is reachable from the center of the room kept
/// before it.
proof fn lemma_next_room_connected(g: Grid, draws: Seq<RoomDraw>, i: int)
    requires
        g.wf(),
        all_draws_ok(draws, g.cols as int, g.rows as int),
        g.is_outcome_of(draws),
        g.blocked_by_walls_only(),
        1 <= i < g.rooms@.len(),
    ensures
        g.connected(g.center_index(i - 1), g.center_index(i)),
{
    let prev = g.rooms@[i - 1];
    let next = g.rooms@[i];
    let (px, py) = prev.spec_center();
    let (nx, ny) = next.spec_center();
    let horizontal_first = lemma_corridor_carved(draws, i);
    lemma_accepted_inside(draws, g.cols as int, g.rows as int, i - 1);
    lemma_accepted_inside(draws, g.cols as int, g.rows as int, i);
    assert(prev.contains(px, py));
    lemma_room_carved(draws, i - 1, px, py);
    lemma_carved_is_open(g, draws, px, py);
    if horizontal_first {
        assert forall|x: int| between(px, nx, x) && x != px implies g.exit_valid(x, py) by {
            assert(on_corridor(prev, next, horizontal_first, x, py));
            lemma_carved_is_open(g, draws, x, py);
        }
        lemma_row_walk(g, py, px, nx);
        assert(on_corridor(prev, next, horizontal_first, nx, py));
        lemma_carved_is_open(g, draws, nx, py);
        assert forall|y: int| between(py, ny, y) && y != py implies g.exit_valid(nx, y) by {
            assert(on_corridor(prev, next, horizontal_first, nx, y));
            lemma_carved_is_open(g, draws, nx, y);
        }
        lemma_column_walk(g, nx, py, ny);
        lemma_connected_transitive(
            g,
            g.spec_index(px, py),
            g.spec_index(nx, py),
            g.spec_index(nx, ny),
        );
    } else {
        assert forall|y: int| between(py, ny, y) && y != py implies g.exit_valid(px, y) by {
            assert(on_corridor(prev, next, horizontal_first, px, y));
            lemma_carved_is_open(g, draws, px, y);
        }
        lemma_column_walk(g, px, py, ny);
        assert(on_corridor(prev, next, horizontal_first, px, ny));
        lemma_carved_is_open(g, draws, px, ny);
        assert forall|x: int| between(px, nx, x) && x != px implies g.exit_valid(x, ny) by {
            assert(on_corridor(prev, next, horizontal_first, x, ny));
            lemma_carved_is_open(g, draws, x, ny);
        }
        lemma_row_walk(g, ny, px, nx);
        lemma_connected_transitive(
            g,
            g.spec_index(px, py),
            g.spec_index(px, ny),
            g.spec_index(nx, ny),
        );
    }
}

/// Connectivity of a generated level: where the level is the outcome of candidates
/// that keep clear of the border, and nothing but the walls blocks, a walk over valid
/// exits leads from the center of the first room to the center of every room.
pub proof fn lemma_rooms_connected(g: Grid, draws: Seq<RoomDraw>, i: int)
    requires
        g.wf(),
        all_draws_ok(draws, g.cols as int, g.rows as int),
        g.is_outcome_of(draws),
        g.blocked_by_walls_only(),
        0 <= i < g.rooms@.len(),
    ensures
        g.connected(g.center_index(0), g.center_index(i)),
    decreases i,
{
    if i == 0 {
        let room = g.rooms@[0];
        lemma_accepted_inside(draws, g.cols as int, g.rows as int, 0);
        lemma_cell_index(
            g.cols as int,
            g.rows as int,
            room.spec_center().0,
            room.spec_center().1,
        );
        lemma_connected_to_itself(g, g.center_index(0));
    } else {
        lemma_rooms_connected(g, draws, i - 1);
        lemma_next_room_connected(g, draws, i);
        lemma_connected_transitive(
            g,
            g.center_index(0),
            g.center_index(i - 1),
            g.center_index(i),
        );
    }
}

/// Connectivity of what the generator returns: in a generated level where nothing but
/// the walls blocks, every room's center is reachable from the first room's center.
pub proof fn lemma_generated_rooms_connected(g: Grid, i: int)
    requires
        g.wf(),
        g.is_generated(),
        g.blocked_by_walls_only(),
        0 <= i < g.rooms@.len(),
    ensures
        g.connected(g.center_index(0), g.center_index(i)),
{
    let draws = choose|draws: Seq<RoomDraw>|
        draws.len() == crate::generator::MAX_ROOMS && all_draws_ok(
            draws,
            g.cols as int,
            g.rows as int,
        ) && #[trigger] g.is_outcome_of(draws);
    lemma_rooms_connected(g, draws, i);
}

} // verus!
