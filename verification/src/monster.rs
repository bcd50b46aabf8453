//! What a monster does in a tick: strike, pursue, or wait.

use crate::actor::Actor;
use crate::combat::WantsToMelee;
use crate::map::{gap, lemma_cell_index, lemma_index_cell, Grid, Position, Tile};
use crate::walks::{lemma_exits_are_neighbours, span};
use vstd::prelude::*;

verus! {

/// What a monster has decided to do.
#[derive(Debug, PartialEq, Eq, Clone, Copy, Structural)]
pub enum MonsterAction {
    /// Strike: the intent is raised and the monster stays where it is.
    Attack(WantsToMelee),
    /// Look for a path from the cell `from` to the cell `to` and follow it.
    Pursue { from: usize, to: usize },
    /// Stay.
    Idle,
}

/// Whether two cells are less than one and a half cells apart, in a straight line:
/// the same cell or one of its eight neighbours.
pub open spec fn within_reach(a: Position, b: Position) -> bool {
    4 * ((a.x - b.x) * (a.x - b.x) + (a.y - b.y) * (a.y - b.y)) < 9
}

/// What a monster decides, given where its target stands: to strike if it sees the
/// target's cell and is within reach of it, to pursue if it sees the cell from further
/// away, and else to wait.
pub open spec fn monster_decision(
    monster: &Actor,
    target: u64,
    target_position: Position,
    map: &Grid,
) -> MonsterAction {
    if monster.viewshed.visible_tiles@.contains(target_position) {
        if within_reach(monster.position, target_position) {
            MonsterAction::Attack(WantsToMelee { attacker: monster.id, target })
        } else {
            MonsterAction::Pursue {
                from: map.spec_index(monster.position.x as int, monster.position.y as int) as usize,
                to: map.spec_index(target_position.x as int, target_position.y as int) as usize,
            }
        }
    } else {
        MonsterAction::Idle
    }
}

/// Whether `cell` is among `tiles`.
pub fn sees_cell(tiles: &Vec<Position>, cell: Position) -> (seen: bool)
    ensures
        seen == tiles@.contains(cell),
{
    let mut i: usize = 0;
    while i < tiles.len()
        invariant
            i <= tiles@.len(),
            forall|j: int| 0 <= j < i ==> tiles@[j] != cell,
        decreases tiles@.len() - i,
    {
        if tiles[i].x == cell.x && tiles[i].y == cell.y {
            return true;
        }
        i += 1;
    }
    false
}

/// Decides what a monster does in this tick. The monster itself changes in one case
/// only: a monster that does not see its target and is currently shown has its view
/// marked for recomputation.
pub fn monster_ai(
    monster: &mut Actor,
    target: u64,
    target_position: Position,
    map: &Grid,
) -> (action: MonsterAction)
    requires
        map.wf(),
        map.in_bounds(old(monster).position.x as int, old(monster).position.y as int),
        map.in_bounds(target_position.x as int, target_position.y as int),
    ensures
        action == monster_decision(old(monster), target, target_position, map),
        final(monster).id == old(monster).id,
        final(monster).position == old(monster).position,
        final(monster).stats == old(monster).stats,
        final(monster).is_blocking == old(monster).is_blocking,
        final(monster).is_player == old(monster).is_player,
        final(monster).shown == old(monster).shown,
        final(monster).suffer_damage == old(monster).suffer_damage,
        final(monster).viewshed.visible_tiles == old(monster).viewshed.visible_tiles,
        final(monster).viewshed.range == old(monster).viewshed.range,
        final(monster).viewshed.dirty == (old(monster).viewshed.dirty || (action
            == MonsterAction::Idle && old(monster).shown)),
{
    if sees_cell(&monster.viewshed.visible_tiles, target_position) {
        let dx: usize = gap(monster.position.x, target_position.x);
        let dy: usize = gap(monster.position.y, target_position.y);
        proof {
            let sq = dx * dx + dy * dy;
            assert(sq == (monster.position.x - target_position.x) * (monster.position.x
                - target_position.x) + (monster.position.y - target_position.y) * (
            monster.position.y - target_position.y)) by (nonlinear_arith)
                requires
                    sq == dx * dx + dy * dy,
                    dx == monster.position.x - target_position.x || dx == target_position.x
                        - monster.position.x,
                    dy == monster.position.y - target_position.y || dy == target_position.y
                        - monster.position.y,
            ;
            assert((dx <= 1 && dy <= 1) == (4 * sq < 9)) by (nonlinear_arith)
                requires
                    sq == dx * dx + dy * dy,
                    dx >= 0,
                    dy >= 0,
            ;
        }
        if dx <= 1 && dy <= 1 {
            return MonsterAction::Attack(WantsToMelee { attacker: monster.id, target });
        }
        proof {
            lemma_cell_index(
                map.cols as int,
                map.rows as int,
                monster.position.x as int,
                monster.position.y as int,
            );
            lemma_cell_index(
                map.cols as int,
                map.rows as int,
                target_position.x as int,
                target_position.y as int,
            );
            assert(map.area() == map.tiles.len());
        }
        let from: usize = map.xy_to_index(monster.position.x, monster.position.y);
        let to: usize = map.xy_to_index(target_position.x, target_position.y);
        MonsterAction::Pursue { from, to }
    } else {
        if monster.shown {
            monster.viewshed.dirty = true;
        }
        MonsterAction::Idle
    }
}

/// Where a monster that pursues ends up, given the outcome of the search for a path:
/// on the second cell of the path, if the search succeeded, the path has a second
/// cell, and that cell is an exit of the cell the monster stands on; else where it was.
pub open spec fn next_cell(
    success: bool,
    steps: Seq<usize>,
    position: Position,
    map: &Grid,
) -> Option<int> {
    if success && steps.len() > 1 && map.in_bounds(position.x as int, position.y as int)
        && map.is_step(map.spec_index(position.x as int, position.y as int), steps[1] as int) {
        Some(steps[1] as int)
    } else {
        None
    }
}

/// Moves a pursuing monster one cell along the path that was found for it. If there is
/// a cell to go to, the monster stands on it, its view is due for recomputation, and
/// the cell is blocked at once, so that no monster that moves later in the tick picks
/// it too. Else nothing changes. A path as a search returns it starts on the monster's
/// cell, so its second cell is an exit of that cell; a second cell that is not, because
/// it is off the grid, blocked by now, or further than one step away, is not moved to.
pub fn follow_path(
    monster: &mut Actor,
    map: &mut Grid,
    success: bool,
    steps: &Vec<usize>,
) -> (moved: bool)
    requires
        old(map).wf(),
    ensures
        final(map).wf(),
        moved == next_cell(success, steps@, old(monster).position, old(map)).is_some(),
        final(map).same_but_occupancy(old(map)),
        final(map).tile_content@ == old(map).tile_content@,
        final(monster).id == old(monster).id,
        final(monster).stats == old(monster).stats,
        final(monster).is_blocking == old(monster).is_blocking,
        final(monster).is_player == old(monster).is_player,
        final(monster).shown == old(monster).shown,
        final(monster).suffer_damage == old(monster).suffer_damage,
        final(monster).viewshed.visible_tiles == old(monster).viewshed.visible_tiles,
        final(monster).viewshed.range == old(monster).viewshed.range,
        match next_cell(success, steps@, old(monster).position, old(map)) {
            Some(next) => {
                &&& final(monster).position.x == next % (old(map).cols as int)
                &&& final(monster).position.y == next / (old(map).cols as int)
                &&& final(map).in_bounds(
                    final(monster).position.x as int,
                    final(monster).position.y as int,
                )
                &&& span(final(monster).position.x as int, old(monster).position.x as int) <= 1
                &&& span(final(monster).position.y as int, old(monster).position.y as int) <= 1
                &&& final(monster).position != old(monster).position
                &&& !old(map).blocked@[next]
                &&& final(monster).viewshed.dirty
                &&& final(map).blocked@ == old(map).blocked@.update(next, true)
            },
            None => {
                &&& final(monster).position == old(monster).position
                &&& final(monster).viewshed.dirty == old(monster).viewshed.dirty
                &&& final(map).blocked@ == old(map).blocked@
            },
        },
{
    if !success || steps.len() <= 1 {
        return false;
    }
    if monster.position.x >= map.cols || monster.position.y >= map.rows {
        return false;
    }
    let next: usize = steps[1];
    proof {
        lemma_cell_index(
            map.cols as int,
            map.rows as int,
            monster.position.x as int,
            monster.position.y as int,
        );
        assert(map.area() == map.tiles.len());
    }
    let from: usize = map.xy_to_index(monster.position.x, monster.position.y);
    if map.exit_cost(from, next).is_none() {
        return false;
    }
    proof {
        let j = choose|j: int|
            0 <= j < map.spec_exits(from as int).len() && (#[trigger] map.spec_exits(
                from as int,
            )[j]).0 == next;
        lemma_exits_are_neighbours(*map, from as int, 8, j);
        lemma_index_cell(map.cols as int, map.rows as int, next as int);
        lemma_cell_index(
            map.cols as int,
            map.rows as int,
            (next % map.cols) as int,
            (next / map.cols) as int,
        );
    }
    monster.position = Position { x: next % map.cols, y: next / map.cols };
    monster.viewshed.dirty = true;
    let idx: usize = map.xy_to_index(monster.position.x, monster.position.y);
    map.blocked[idx] = true;
    true
}

/// Where a wandering step of `movement` from `position` leads: onto the cell aimed
/// at if that is a floor cell of the grid, else nowhere.
pub open spec fn wander_target(
    map: &Grid,
    position: Position,
    movement: (i32, i32),
) -> Option<Position> {
    let x = position.x + movement.0;
    let y = position.y + movement.1;
    if map.in_bounds(x, y) && map.tile_at(x, y) == Tile::Floor {
        Some(Position { x: x as usize, y: y as usize })
    } else {
        None
    }
}

/// Takes one wandering step: the position changes only if the cell aimed at is a floor
/// cell of the grid. Nothing else is looked at, neither blocking nor occupants.
pub fn move_enemy(map: &Grid, position: &mut Position, movement: (i32, i32)) -> (moved: bool)
    requires
        map.wf(),
    ensures
        moved == wander_target(map, *old(position), movement).is_some(),
        *final(position) == (match wander_target(map, *old(position), movement) {
            Some(target) => target,
            None => *old(position),
        }),
{
    let x: i128 = position.x as i128 + movement.0 as i128;
    let y: i128 = position.y as i128 + movement.1 as i128;
    if x < 0 || y < 0 || x >= map.cols as i128 || y >= map.rows as i128 {
        return false;
    }
    let x: usize = x as usize;
    let y: usize = y as usize;
    match map.get_tile(x, y) {
        Tile::Floor => {
            position.x = x;
            position.y = y;
            true
        },
        Tile::Wall => false,
    }
}

} // verus!
