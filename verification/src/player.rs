//! The player's move: a step onto a free cell, or a strike at whoever blocks it.

use crate::actor::{
    find_actor, find_player, index_of_id, index_of_player, lemma_index_of_player, Actor,
};
use crate::combat::WantsToMelee;
use crate::map::{lemma_cell_index, Grid, Position};
use vstd::prelude::*;

verus! {

/// The intents that bumping into a cell raises: one for each occupant, in the order of
/// the cell's entry in the occupancy index, that the directory knows.
pub open spec fn bump_intents(
    attacker: u64,
    occupants: Seq<u64>,
    actors: Seq<Actor>,
) -> Seq<WantsToMelee>
    decreases occupants.len(),
{
    if occupants.len() == 0 {
        Seq::empty()
    } else {
        let raised = bump_intents(attacker, occupants.drop_last(), actors);
        if index_of_id(actors, occupants.last()) < actors.len() {
            raised.push(WantsToMelee { attacker, target: occupants.last() })
        } else {
            raised
        }
    }
}

/// What a movement intent does to the player `before`: nothing if there is no intent
/// or the cell aimed at lies off the grid or is blocked; else the player stands on
/// that cell and its view is due for recomputation.
pub open spec fn player_moved(
    before: &Actor,
    after: &Actor,
    movement: Option<(i32, i32)>,
    map: &Grid,
) -> bool {
    match movement {
        None => *after == *before,
        Some(delta) => {
            let x = before.position.x + delta.0;
            let y = before.position.y + delta.1;
            if map.in_bounds(x, y) && !map.blocked@[map.spec_index(x, y)] {
                &&& after.position.x == x
                &&& after.position.y == y
                &&& after.viewshed.dirty
                &&& after.viewshed.visible_tiles == before.viewshed.visible_tiles
                &&& after.viewshed.range == before.viewshed.range
                &&& after.id == before.id
                &&& after.stats == before.stats
                &&& after.is_blocking == before.is_blocking
                &&& after.is_player == before.is_player
                &&& after.shown == before.shown
                &&& after.suffer_damage == before.suffer_damage
            } else {
                *after == *before
            }
        },
    }
}

/// The intents that a movement intent of the player `before` raises: none unless the
/// cell aimed at lies on the grid and is blocked; then those of bumping into it.
pub open spec fn player_strikes(
    before: &Actor,
    actors: Seq<Actor>,
    movement: Option<(i32, i32)>,
    map: &Grid,
) -> Seq<WantsToMelee> {
    match movement {
        None => Seq::empty(),
        Some(delta) => {
            let x = before.position.x + delta.0;
            let y = before.position.y + delta.1;
            if map.in_bounds(x, y) && map.blocked@[map.spec_index(x, y)] {
                bump_intents(before.id, map.tile_content@[map.spec_index(x, y)]@, actors)
            } else {
                Seq::empty()
            }
        },
    }
}

/// Carries out the player's movement intent for this tick. The player steps onto the
/// cell aimed at if that cell lies on the grid and is not blocked. If it is blocked,
/// the player stays and strikes at each occupant of the cell that the directory knows.
/// Without a player, and for every other actor, nothing changes.
pub fn player_input(
    map: &Grid,
    actors: &mut Vec<Actor>,
    movement: Option<(i32, i32)>,
) -> (intents: Vec<WantsToMelee>)
    requires
        map.wf(),
    ensures
        final(actors)@.len() == old(actors)@.len(),
        forall|i: int|
            0 <= i < old(actors)@.len() && i != index_of_player(old(actors)@)
                ==> final(actors)@[i] == old(actors)@[i],
        index_of_player(old(actors)@) >= old(actors)@.len() ==> intents@.len() == 0,
        index_of_player(old(actors)@) < old(actors)@.len() ==> {
            &&& player_moved(
                &old(actors)@[index_of_player(old(actors)@)],
                &final(actors)@[index_of_player(old(actors)@)],
                movement,
                map,
            )
            &&& intents@ == player_strikes(
                &old(actors)@[index_of_player(old(actors)@)],
                old(actors)@,
                movement,
                map,
            )
        },
{
    let mut intents: Vec<WantsToMelee> = Vec::new();
    let delta: (i32, i32) = match movement {
        Some(delta) => delta,
        None => {
            return intents;
        },
    };
    let found = find_player(actors);
    let at: usize = match found {
        Some(at) => at,
        None => {
            return intents;
        },
    };
    proof {
        lemma_index_of_player(actors@);
    }
    let x: i128 = actors[at].position.x as i128 + delta.0 as i128;
    let y: i128 = actors[at].position.y as i128 + delta.1 as i128;
    if x < 0 || y < 0 || x >= map.cols as i128 || y >= map.rows as i128 {
        assert(!map.in_bounds(x as int, y as int));
        assert(intents@ == Seq::<WantsToMelee>::empty());
        return intents;
    }
    let x: usize = x as usize;
    let y: usize = y as usize;
    proof {
        lemma_cell_index(map.cols as int, map.rows as int, x as int, y as int);
        assert(map.area() == map.tiles.len());
    }
    let idx: usize = map.xy_to_index(x, y);
    if !map.blocked[idx] {
        actors[at].position = Position { x, y };
        actors[at].viewshed.dirty = true;
        proof {
            assert(intents@ == Seq::<WantsToMelee>::empty());
            assert forall|i: int| 0 <= i < old(actors)@.len() && i != at implies actors@[i] == old(
                actors,
            )@[i] by {}
        }
        return intents;
    }
    let attacker: u64 = actors[at].id;
    let occupants: &Vec<u64> = &map.tile_content[idx];
    assert(occupants@.take(0) == Seq::<u64>::empty());
    let mut k: usize = 0;
    while k < occupants.len()
        invariant
            k <= occupants@.len(),
            intents@ == bump_intents(attacker, occupants@.take(k as int), actors@),
        decreases occupants@.len() - k,
    {
        let target: u64 = occupants[k];
        proof {
            assert(occupants@.take(k + 1).drop_last() == occupants@.take(k as int));
            assert(occupants@.take(k + 1).last() == target);
        }
        if find_actor(actors, target).is_some() {
            intents.push(WantsToMelee { attacker, target });
        }
        k += 1;
    }
    assert(occupants@.take(k as int) == occupants@);
    intents
}

} // verus!
