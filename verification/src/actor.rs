//! The actors of a session, and the index of who stands where.

use crate::combat::{CombatStats, SufferDamage};
use crate::map::{
    lemma_cell_index, lemma_names_cell_push, names_cell, Grid, Position, Tile, Viewshed,
};
use vstd::prelude::*;

verus! {

/// Sight range that actors start with.
pub const SIGHT_RANGE: i32 = 8;

/// The stats the player starts with.
pub open spec fn player_stats() -> CombatStats {
    CombatStats { max_hp: 30, hp: 30, defense: 2, power: 5 }
}

/// The stats a monster starts with.
pub open spec fn monster_stats() -> CombatStats {
    CombatStats { max_hp: 16, hp: 16, defense: 1, power: 3 }
}

/// The handle of the player that `spawn_player` makes.
pub const PLAYER_ID: u64 = 0;

/// One live actor: the player or a monster.
#[derive(Debug, Clone)]
pub struct Actor {
    /// Handle by which intents and the occupancy index refer to the actor.
    pub id: u64,
    pub position: Position,
    pub stats: CombatStats,
    pub viewshed: Viewshed,
    /// Whether the actor's cell is impassable while it stands there.
    pub is_blocking: bool,
    pub is_player: bool,
    /// Whether the actor is currently drawn: for a monster, whether the player saw its
    /// cell when the monster's view was last recomputed.
    pub shown: bool,
    /// Damage taken in this tick and not yet applied.
    pub suffer_damage: Option<SufferDamage>,
}

impl Actor {
    /// Same actor in everything but the viewshed and the flag derived from it.
    pub open spec fn same_but_view(&self, other: &Actor) -> bool {
        &&& self.id == other.id
        &&& self.position == other.position
        &&& self.stats == other.stats
        &&& self.is_blocking == other.is_blocking
        &&& self.is_player == other.is_player
        &&& self.suffer_damage == other.suffer_damage
    }
}

/// No two actors of the directory share a handle.
pub open spec fn distinct_ids(actors: Seq<Actor>) -> bool {
    forall|i: int, j: int|
        0 <= i < actors.len() && 0 <= j < actors.len() && i != j ==> (#[trigger] actors[i]).id != (
        #[trigger] actors[j]).id
}

/// At most one actor of the directory is the player.
pub open spec fn one_player(actors: Seq<Actor>) -> bool {
    forall|i: int, j: int|
        0 <= i < actors.len() && 0 <= j < actors.len() && (#[trigger] actors[i]).is_player && (
        #[trigger] actors[j]).is_player ==> i == j
}

/// Every actor stands on a cell of the grid.
pub open spec fn all_on_grid(actors: Seq<Actor>, map: &Grid) -> bool {
    forall|i: int|
        0 <= i < actors.len() ==> map.in_bounds(
            (#[trigger] actors[i]).position.x as int,
            actors[i].position.y as int,
        )
}

/// Whether no two actors share a handle.
pub fn has_distinct_ids(actors: &Vec<Actor>) -> (ok: bool)
    ensures
        ok == distinct_ids(actors@),
{
    let mut i: usize = 0;
    while i < actors.len()
        invariant
            i <= actors@.len(),
            forall|a: int, b: int|
                0 <= a < i && 0 <= b < actors@.len() && a != b ==> (#[trigger] actors@[a]).id != (
                #[trigger] actors@[b]).id,
        decreases actors@.len() - i,
    {
        let mut j: usize = 0;
        while j < actors.len()
            invariant
                i < actors@.len(),
                j <= actors@.len(),
                forall|b: int|
                    0 <= b < j && b != i ==> actors@[i as int].id != (#[trigger] actors@[b]).id,
            decreases actors@.len() - j,
        {
            if j != i && actors[i].id == actors[j].id {
                return false;
            }
            j += 1;
        }
        i += 1;
    }
    true
}

/// Whether every actor stands on a cell of the grid.
pub fn stand_on_grid(actors: &Vec<Actor>, map: &Grid) -> (ok: bool)
    ensures
        ok == all_on_grid(actors@, map),
{
    let mut i: usize = 0;
    while i < actors.len()
        invariant
            i <= actors@.len(),
            forall|j: int|
                0 <= j < i ==> map.in_bounds(
                    (#[trigger] actors@[j]).position.x as int,
                    actors@[j].position.y as int,
                ),
        decreases actors@.len() - i,
    {
        if actors[i].position.x >= map.cols || actors[i].position.y >= map.rows {
            return false;
        }
        i += 1;
    }
    true
}

/// Position of the first actor with handle `id`, or the directory's length if there
/// is none.
pub open spec fn index_of_id(actors: Seq<Actor>, id: u64) -> int
    decreases actors.len(),
{
    if actors.len() == 0 {
        0
    } else if actors[0].id == id {
        0
    } else {
        1 + index_of_id(actors.drop_first(), id)
    }
}

/// Position of the first actor that is the player, or the directory's length if there
/// is none.
pub open spec fn index_of_player(actors: Seq<Actor>) -> int
    decreases actors.len(),
{
    if actors.len() == 0 {
        0
    } else if actors[0].is_player {
        0
    } else {
        1 + index_of_player(actors.drop_first())
    }
}

/// What `index_of_id` finds: an actor with the handle, and none with it before.
pub proof fn lemma_index_of_id(actors: Seq<Actor>, id: u64)
    ensures
        0 <= index_of_id(actors, id) <= actors.len(),
        index_of_id(actors, id) < actors.len() ==> actors[index_of_id(actors, id)].id == id,
        forall|j: int| 0 <= j < index_of_id(actors, id) ==> (#[trigger] actors[j]).id != id,
    decreases actors.len(),
{
    if actors.len() > 0 && actors[0].id != id {
        let rest = actors.drop_first();
        lemma_index_of_id(rest, id);
        assert forall|j: int| 0 <= j < index_of_id(actors, id) implies (#[trigger] actors[j]).id
            != id by {
            if j > 0 {
                assert(actors[j] == rest[j - 1]);
            }
        }
    }
}

/// Which actor a handle finds depends on the handles alone.
pub proof fn lemma_index_of_id_same_ids(a: Seq<Actor>, b: Seq<Actor>, id: u64)
    requires
        a.len() == b.len(),
        forall|i: int| 0 <= i < a.len() ==> (#[trigger] a[i]).id == b[i].id,
    ensures
        index_of_id(a, id) == index_of_id(b, id),
    decreases a.len(),
{
    if a.len() > 0 {
        assert(a[0].id == b[0].id);
        if a[0].id != id {
            assert forall|i: int| 0 <= i < a.drop_first().len() implies (
            #[trigger] a.drop_first()[i]).id == b.drop_first()[i].id by {
                assert(a[i + 1].id == b[i + 1].id);
            }
            lemma_index_of_id_same_ids(a.drop_first(), b.drop_first(), id);
        }
    }
}

/// What `index_of_player` finds: a player, and none before.
pub proof fn lemma_index_of_player(actors: Seq<Actor>)
    ensures
        0 <= index_of_player(actors) <= actors.len(),
        index_of_player(actors) < actors.len() ==> actors[index_of_player(actors)].is_player,
        forall|j: int| 0 <= j < index_of_player(actors) ==> !(#[trigger] actors[j]).is_player,
    decreases actors.len(),
{
    if actors.len() > 0 && !actors[0].is_player {
        let rest = actors.drop_first();
        lemma_index_of_player(rest);
        assert forall|j: int| 0 <= j < index_of_player(actors) implies !(
        #[trigger] actors[j]).is_player by {
            if j > 0 {
                assert(actors[j] == rest[j - 1]);
            }
        }
    }
}

/// Looks an actor up by its handle.
pub fn find_actor(actors: &Vec<Actor>, id: u64) -> (found: Option<usize>)
    ensures
        match found {
            Some(at) => at == index_of_id(actors@, id) && at < actors@.len(),
            None => index_of_id(actors@, id) == actors@.len(),
        },
{
    proof {
        lemma_index_of_id(actors@, id);
    }
    let mut i: usize = 0;
    while i < actors.len()
        invariant
            i <= actors@.len(),
            i <= index_of_id(actors@, id) <= actors@.len(),
            index_of_id(actors@, id) < actors@.len() ==> actors@[index_of_id(actors@, id)].id == id,
        decreases actors@.len() - i,
    {
        if actors[i].id == id {
            proof {
                lemma_index_of_id(actors@, id);
            }
            return Some(i);
        }
        i += 1;
    }
    None
}

/// Looks the player up.
pub fn find_player(actors: &Vec<Actor>) -> (found: Option<usize>)
    ensures
        match found {
            Some(at) => at == index_of_player(actors@) && at < actors@.len(),
            None => index_of_player(actors@) == actors@.len(),
        },
{
    proof {
        lemma_index_of_player(actors@);
    }
    let mut i: usize = 0;
    while i < actors.len()
        invariant
            i <= actors@.len(),
            i <= index_of_player(actors@) <= actors@.len(),
            index_of_player(actors@) < actors@.len() ==> actors@[index_of_player(
                actors@,
            )].is_player,
        decreases actors@.len() - i,
    {
        if actors[i].is_player {
            proof {
                lemma_index_of_player(actors@);
            }
            return Some(i);
        }
        i += 1;
    }
    None
}

/// Whether the actor stands on cell `idx` of a grid `cols` wide.
pub open spec fn stands_on(actor: &Actor, cols: int, idx: int) -> bool {
    actor.position.y * cols + actor.position.x == idx
}

/// The handles of the actors that stand on cell `idx` of a grid `cols` wide, in the
/// order of the directory.
pub open spec fn occupants(actors: Seq<Actor>, cols: int, idx: int) -> Seq<u64>
    decreases actors.len(),
{
    if actors.len() == 0 {
        Seq::empty()
    } else {
        let before = occupants(actors.drop_last(), cols, idx);
        if stands_on(&actors.last(), cols, idx) {
            before.push(actors.last().id)
        } else {
            before
        }
    }
}

/// Whether an actor that blocks its cell stands on cell `idx` of a grid `cols` wide.
pub open spec fn blocker_on(actors: Seq<Actor>, cols: int, idx: int) -> bool {
    exists|i: int|
        0 <= i < actors.len() && (#[trigger] actors[i]).is_blocking && stands_on(
            &actors[i],
            cols,
            idx,
        )
}

/// A directory with one more actor has a blocker on a cell exactly if the shorter one
/// has, or the added actor blocks and stands there.
pub proof fn lemma_blocker_push(actors: Seq<Actor>, added: Actor, cols: int, idx: int)
    ensures
        blocker_on(actors.push(added), cols, idx) == (blocker_on(actors, cols, idx) || (
        added.is_blocking && stands_on(&added, cols, idx))),
{
    let longer = actors.push(added);
    if blocker_on(actors, cols, idx) {
        let i = choose|i: int|
            0 <= i < actors.len() && (#[trigger] actors[i]).is_blocking && stands_on(
                &actors[i],
                cols,
                idx,
            );
        assert(longer[i] == actors[i]);
    }
    if added.is_blocking && stands_on(&added, cols, idx) {
        assert(longer[actors.len() as int] == added);
    }
    if blocker_on(longer, cols, idx) {
        let i = choose|i: int|
            0 <= i < longer.len() && (#[trigger] longer[i]).is_blocking && stands_on(
                &longer[i],
                cols,
                idx,
            );
        if i < actors.len() {
            assert(longer[i] == actors[i]);
        }
    }
}

/// The occupancy index lists exactly who is there: every handle listed for a cell is
/// that of an actor of the directory that stands on the cell, and every such actor's
/// handle is listed.
pub proof fn lemma_occupants(actors: Seq<Actor>, cols: int, idx: int)
    ensures
        forall|j: int|
            0 <= j < occupants(actors, cols, idx).len() ==> exists|i: int|
                0 <= i < actors.len() && stands_on(&#[trigger] actors[i], cols, idx)
                    && actors[i].id == #[trigger] occupants(actors, cols, idx)[j],
        forall|i: int|
            0 <= i < actors.len() && stands_on(&#[trigger] actors[i], cols, idx) ==> occupants(
                actors,
                cols,
                idx,
            ).contains(actors[i].id),
    decreases actors.len(),
{
    if actors.len() > 0 {
        let before = actors.drop_last();
        let listed = occupants(before, cols, idx);
        let all = occupants(actors, cols, idx);
        let last = actors.len() - 1;
        lemma_occupants(before, cols, idx);
        assert forall|j: int| 0 <= j < all.len() implies exists|i: int|
            0 <= i < actors.len() && stands_on(&#[trigger] actors[i], cols, idx) && actors[i].id
                == #[trigger] all[j] by {
            if j < listed.len() {
                assert(all[j] == listed[j]);
                let i = choose|i: int|
                    0 <= i < before.len() && stands_on(&#[trigger] before[i], cols, idx)
                        && before[i].id == listed[j];
                assert(actors[i] == before[i]);
            } else {
                assert(stands_on(&actors[last], cols, idx) && actors[last].id == all[j]);
            }
        }
        assert forall|i: int|
            0 <= i < actors.len() && stands_on(
                &#[trigger] actors[i],
                cols,
                idx,
            ) implies all.contains(actors[i].id) by {
            if i < last {
                assert(before[i] == actors[i]);
                assert(listed.contains(before[i].id));
                let j = choose|j: int| 0 <= j < listed.len() && listed[j] == before[i].id;
                assert(all[j] == actors[i].id);
            } else {
                assert(all[all.len() - 1] == actors[i].id);
            }
        }
    }
}

impl Grid {
    /// Same grid in everything but the blocked flags and the occupancy index.
    pub open spec fn same_but_occupancy(&self, other: &Grid) -> bool {
        &&& self.cols == other.cols
        &&& self.rows == other.rows
        &&& self.tile_size == other.tile_size
        &&& self.tileset_grids == other.tileset_grids
        &&& self.rooms@ == other.rooms@
        &&& self.tiles@ == other.tiles@
        &&& self.revealed_tiles@ == other.revealed_tiles@
        &&& self.visible_tiles@ == other.visible_tiles@
    }
}

/// Rebuilds the blocked flags and the occupancy index from scratch, whatever they held
/// before: a cell is blocked if it is a wall or an actor that blocks stands on it, and
/// its entry of the index lists the actors that stand on it, blocking or not, in the
/// order of the directory.
pub fn map_index(map: &mut Grid, actors: &Vec<Actor>)
    requires
        old(map).wf(),
        all_on_grid(actors@, old(map)),
    ensures
        final(map).wf(),
        final(map).same_but_occupancy(old(map)),
        forall|idx: int|
            0 <= idx < final(map).area() ==> (#[trigger] final(map).tile_content@[idx])@
                == occupants(actors@, final(map).cols as int, idx),
        forall|idx: int|
            0 <= idx < final(map).area() ==> #[trigger] final(map).blocked@[idx] == (
            final(map).tiles@[idx] == Tile::Wall || blocker_on(
                actors@,
                final(map).cols as int,
                idx,
            )),
{
    map.populate_blocked();
    map.clear_content_index();
    assert(actors@.take(0) == Seq::<Actor>::empty());
    let mut k: usize = 0;
    while k < actors.len()
        invariant
            k <= actors@.len(),
            map.wf(),
            map.same_but_occupancy(old(map)),
            all_on_grid(actors@, map),
            forall|idx: int|
                0 <= idx < map.area() ==> (#[trigger] map.tile_content@[idx])@ == occupants(
                    actors@.take(k as int),
                    map.cols as int,
                    idx,
                ),
            forall|idx: int|
                0 <= idx < map.area() ==> #[trigger] map.blocked@[idx] == (map.tiles@[idx]
                    == Tile::Wall || blocker_on(actors@.take(k as int), map.cols as int, idx)),
        decreases actors@.len() - k,
    {
        let ghost before = *map;
        let pos: Position = actors[k].position;
        proof {
            assert(actors@.take(k + 1).drop_last() == actors@.take(k as int));
            assert(actors@.take(k + 1).last() == actors@[k as int]);
            assert(actors@.take(k + 1) == actors@.take(k as int).push(actors@[k as int]));
            lemma_cell_index(map.cols as int, map.rows as int, pos.x as int, pos.y as int);
            assert(map.area() == map.tiles.len());
        }
        let at: usize = map.xy_to_index(pos.x, pos.y);
        if actors[k].is_blocking {
            map.blocked[at] = true;
        }
        map.tile_content[at].push(actors[k].id);
        proof {
            assert forall|idx: int| 0 <= idx < map.area() implies (
            #[trigger] map.tile_content@[idx])@ == occupants(
                actors@.take(k + 1),
                map.cols as int,
                idx,
            ) by {
                assert(before.tile_content@[idx]@ == occupants(
                    actors@.take(k as int),
                    map.cols as int,
                    idx,
                ));
            }
            assert forall|idx: int| 0 <= idx < map.area() implies #[trigger] map.blocked@[idx] == (
            map.tiles@[idx] == Tile::Wall || blocker_on(
                actors@.take(k + 1),
                map.cols as int,
                idx,
            )) by {
                lemma_blocker_push(
                    actors@.take(k as int),
                    actors@[k as int],
                    map.cols as int,
                    idx,
                );
                assert(before.blocked@[idx] == (before.tiles@[idx] == Tile::Wall || blocker_on(
                    actors@.take(k as int),
                    map.cols as int,
                    idx,
                )));
            }
        }
        k += 1;
    }
    assert(actors@.take(k as int) == actors@);
}

/// Rebuilds the blocked flags alone: walls block, and so does every cell that one
/// of `positions` names.
pub fn update_blocks(map: &mut Grid, positions: &Vec<Position>)
    requires
        old(map).wf(),
        forall|j: int|
            0 <= j < positions@.len() ==> old(map).in_bounds(
                (#[trigger] positions@[j]).x as int,
                positions@[j].y as int,
            ),
    ensures
        final(map).wf(),
        final(map).same_but_occupancy(old(map)),
        final(map).tile_content@ == old(map).tile_content@,
        forall|idx: int|
            0 <= idx < final(map).area() ==> #[trigger] final(map).blocked@[idx] == (
            final(map).tiles@[idx] == Tile::Wall || names_cell(
                positions@,
                final(map).cols as int,
                idx,
            )),
{
    map.populate_blocked();
    assert(positions@.take(0) == Seq::<Position>::empty());
    let mut k: usize = 0;
    while k < positions.len()
        invariant
            k <= positions@.len(),
            map.wf(),
            map.same_but_occupancy(old(map)),
            map.tile_content@ == old(map).tile_content@,
            forall|j: int|
                0 <= j < positions@.len() ==> map.in_bounds(
                    (#[trigger] positions@[j]).x as int,
                    positions@[j].y as int,
                ),
            forall|idx: int|
                0 <= idx < map.area() ==> #[trigger] map.blocked@[idx] == (map.tiles@[idx]
                    == Tile::Wall || names_cell(positions@.take(k as int), map.cols as int, idx)),
        decreases positions@.len() - k,
    {
        let ghost before = *map;
        let pos: Position = positions[k];
        proof {
            lemma_cell_index(map.cols as int, map.rows as int, pos.x as int, pos.y as int);
            assert(map.area() == map.tiles.len());
            assert(positions@.take(k + 1) == positions@.take(k as int).push(pos));
        }
        let at: usize = map.xy_to_index(pos.x, pos.y);
        map.blocked[at] = true;
        proof {
            assert forall|idx: int| 0 <= idx < map.area() implies #[trigger] map.blocked@[idx] == (
            map.tiles@[idx] == Tile::Wall || names_cell(
                positions@.take(k + 1),
                map.cols as int,
                idx,
            )) by {
                lemma_names_cell_push(positions@.take(k as int), pos, map.cols as int, idx);
                assert(before.blocked@[idx] == (before.tiles@[idx] == Tile::Wall || names_cell(
                    positions@.take(k as int),
                    map.cols as int,
                    idx,
                )));
            }
        }
        k += 1;
    }
    assert(positions@.take(k as int) == positions@);
}

/// Where the player enters a level: the center of the first room, or the middle of
/// the grid if the level has no room.
pub open spec fn spawn_point(map: &Grid) -> Position {
    if map.rooms@.len() == 0 {
        Position { x: map.cols / 2, y: map.rows / 2 }
    } else {
        Position {
            x: map.rooms@[0].spec_center().0 as usize,
            y: map.rooms@[0].spec_center().1 as usize,
        }
    }
}

/// The player as a session starts with it: at the spawn point, with the player's
/// stats, an empty view that is due for recomputation, and nothing suffered.
pub fn spawn_player(map: &Grid) -> (player: Actor)
    ensures
        player.id == PLAYER_ID,
        player.position == spawn_point(map),
        player.stats == player_stats(),
        player.viewshed.visible_tiles@.len() == 0,
        player.viewshed.range == SIGHT_RANGE,
        player.viewshed.dirty,
        !player.is_blocking,
        player.is_player,
        player.shown,
        player.suffer_damage.is_none(),
        map.rooms_in_grid() && map.cols > 0 && map.rows > 0 ==> map.in_bounds(
            player.position.x as int,
            player.position.y as int,
        ),
{
    let position = if map.rooms.len() == 0 {
        Position { x: map.cols / 2, y: map.rows / 2 }
    } else {
        let (x, y) = map.rooms[0].center();
        Position { x, y }
    };
    Actor {
        id: PLAYER_ID,
        position,
        stats: CombatStats { max_hp: 30, hp: 30, defense: 2, power: 5 },
        viewshed: Viewshed { visible_tiles: Vec::new(), range: SIGHT_RANGE, dirty: true },
        is_blocking: false,
        is_player: true,
        shown: true,
        suffer_damage: None,
    }
}

/// The monster that the room with number `room` starts with.
pub open spec fn is_fresh_monster(monster: &Actor, map: &Grid, room: int) -> bool {
    &&& monster.id == room
    &&& monster.position.x == map.rooms@[room].spec_center().0
    &&& monster.position.y == map.rooms@[room].spec_center().1
    &&& monster.stats == monster_stats()
    &&& monster.viewshed.visible_tiles@.len() == 0
    &&& monster.viewshed.range == SIGHT_RANGE
    &&& monster.viewshed.dirty
    &&& monster.is_blocking
    &&& !monster.is_player
    &&& !monster.shown
    &&& monster.suffer_damage.is_none()
}

/// One monster for every room but the first, which is the player's: each stands in
/// the center of its room and has the number of the room as its handle.
pub fn spawn_monster(map: &Grid) -> (monsters: Vec<Actor>)
    ensures
        monsters@.len() == (if map.rooms@.len() == 0 {
            0
        } else {
            map.rooms@.len() - 1
        }),
        forall|i: int|
            0 <= i < monsters@.len() ==> is_fresh_monster(#[trigger] &monsters@[i], map, i + 1),
        distinct_ids(monsters@),
        map.rooms_in_grid() ==> all_on_grid(monsters@, map),
{
    let mut monsters: Vec<Actor> = Vec::new();
    let mut i: usize = 1;
    while i < map.rooms.len()
        invariant
            1 <= i,
            map.rooms@.len() > 0 ==> i <= map.rooms@.len(),
            monsters@.len() == (if map.rooms@.len() == 0 {
                0
            } else {
                i - 1
            }),
            forall|j: int|
                0 <= j < monsters@.len() ==> is_fresh_monster(#[trigger] &monsters@[j], map, j + 1),
        decreases map.rooms@.len() - i,
    {
        let (x, y) = map.rooms[i].center();
        let ghost before = monsters@;
        monsters.push(
            Actor {
                id: i as u64,
                position: Position { x, y },
                stats: CombatStats { max_hp: 16, hp: 16, defense: 1, power: 3 },
                viewshed: Viewshed { visible_tiles: Vec::new(), range: SIGHT_RANGE, dirty: true },
                is_blocking: true,
                is_player: false,
                shown: false,
                suffer_damage: None,
            },
        );
        proof {
            assert forall|j: int| 0 <= j < monsters@.len() implies is_fresh_monster(
                #[trigger] &monsters@[j],
                map,
                j + 1,
            ) by {
                if j < before.len() {
                    assert(monsters@[j] == before[j]);
                }
            }
        }
        i += 1;
    }
    proof {
        assert forall|a: int, b: int|
            0 <= a < monsters@.len() && 0 <= b < monsters@.len() && a != b implies (
        #[trigger] monsters@[a]).id != (#[trigger] monsters@[b]).id by {
            assert(is_fresh_monster(&monsters@[a], map, a + 1));
            assert(is_fresh_monster(&monsters@[b], map, b + 1));
            assert(map.rooms.len() == map.rooms@.len());
        }
        if map.rooms_in_grid() {
            assert forall|a: int| 0 <= a < monsters@.len() implies map.in_bounds(
                (#[trigger] monsters@[a]).position.x as int,
                monsters@[a].position.y as int,
            ) by {
                assert(is_fresh_monster(&monsters@[a], map, a + 1));
                assert(crate::generator::room_in_grid(
                    map.rooms@[a + 1],
                    map.cols as int,
                    map.rows as int,
                ));
            }
        }
    }
    monsters
}

} // verus!
