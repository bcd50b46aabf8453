//! Melee combat: intents, damage aggregation, and the removal of the dead.

use crate::actor::{
    distinct_ids, find_actor, index_of_id, lemma_index_of_id, lemma_index_of_id_same_ids,
    one_player, Actor,
};
use vstd::prelude::*;

verus! {

/// The numbers a fight is decided by.
#[derive(Debug, PartialEq, Eq, Clone, Copy, Structural)]
pub struct CombatStats {
    pub max_hp: i32,
    pub hp: i32,
    pub defense: i32,
    pub power: i32,
}

/// One actor's wish to strike another in this tick.
#[derive(Debug, PartialEq, Eq, Clone, Copy, Structural)]
pub struct WantsToMelee {
    pub attacker: u64,
    pub target: u64,
}

/// The hits an actor has taken in this tick and not yet paid for, in order of arrival.
#[derive(Debug, Clone)]
pub struct SufferDamage {
    pub amount: Vec<i32>,
}

/// The damage of a tick while it is gathered: for each target that was hit, the
/// hits in order of arrival. Kept in a `hashbrown::HashMap`, as `bevy::utils` hands
/// it on, of which the verifier sees only `pending`.
#[verifier::external_body]
pub struct DamageMap {
    inner: bevy::utils::hashbrown::HashMap<u64, Vec<i32>>,
}

/// What a `DamageMap` holds: the targets that were hit, each with its hits.
pub uninterp spec fn pending(map: DamageMap) -> Map<u64, Seq<i32>>;

/// No damage at all.
pub open spec fn empty_tally() -> Map<u64, Seq<i32>> {
    Map::empty()
}

impl DamageMap {
    /// `HashMap::default`: a map that holds nothing.
    #[verifier::external_body]
    fn new() -> (fresh: DamageMap)
        ensures
            pending(fresh) == empty_tally(),
    {
        DamageMap { inner: bevy::utils::hashbrown::HashMap::default() }
    }

    /// `HashMap::remove`: takes the entry of `target` out of the map and hands out
    /// what it held, if there was one.
    #[verifier::external_body]
    fn remove(&mut self, target: u64) -> (hits: Option<Vec<i32>>)
        ensures
            pending(*final(self)) == pending(*old(self)).remove(target),
            match hits {
                Some(hits) => {
                    &&& pending(*old(self)).contains_key(target)
                    &&& hits@ == pending(*old(self))[target]
                },
                None => !pending(*old(self)).contains_key(target),
            },
    {
        self.inner.remove(&target)
    }

    /// `HashMap::insert`: makes `hits` the entry of `target`, in place of any that was
    /// there.
    #[verifier::external_body]
    fn insert(&mut self, target: u64, hits: Vec<i32>)
        ensures
            pending(*final(self)) == pending(*old(self)).insert(target, hits@),
    {
        self.inner.insert(target, hits);
    }

    /// `HashMap::into_iter`, collected: every entry of the map once, in no stated
    /// order.
    #[verifier::external_body]
    fn into_pairs(self) -> (pairs: Vec<(u64, Vec<i32>)>)
        ensures
            forall|i: int, j: int|
                0 <= i < pairs@.len() && 0 <= j < pairs@.len() && i != j ==> (
                #[trigger] pairs@[i]).0 != (#[trigger] pairs@[j]).0,
            forall|i: int|
                0 <= i < pairs@.len() ==> pending(self).contains_key((#[trigger] pairs@[i]).0)
                    && pending(self)[pairs@[i].0] == pairs@[i].1@,
            forall|target: u64| #[trigger]
                pending(self).contains_key(target) ==> exists|i: int|
                    0 <= i < pairs@.len() && (#[trigger] pairs@[i]).0 == target,
    {
        self.inner.into_iter().collect()
    }
}

/// The damage that an intent does: the attacker's power less the target's defense,
/// if that is more than nothing and both are in the directory with hit points not
/// below zero. An intent that names an actor that is gone, or one whose hit points
/// are below zero, does nothing, and neither does a strike that the defense absorbs.
pub open spec fn hit(intent: WantsToMelee, actors: Seq<Actor>) -> Option<int> {
    let a = index_of_id(actors, intent.attacker);
    let t = index_of_id(actors, intent.target);
    if a < actors.len() && t < actors.len() && actors[a].stats.hp >= 0 && actors[t].stats.hp >= 0
        && actors[a].stats.power - actors[t].stats.defense > 0 {
        Some(actors[a].stats.power - actors[t].stats.defense)
    } else {
        None
    }
}

/// The damage of a tick: for each target that the intents do damage to, the damage
/// of each such intent, in the order of the intents.
pub open spec fn tally(intents: Seq<WantsToMelee>, actors: Seq<Actor>) -> Map<u64, Seq<i32>>
    decreases intents.len(),
{
    if intents.len() == 0 {
        Map::empty()
    } else {
        let before = tally(intents.drop_last(), actors);
        let target = intents.last().target;
        match hit(intents.last(), actors) {
            Some(damage) => before.insert(
                target,
                (if before.contains_key(target) {
                    before[target]
                } else {
                    Seq::empty()
                }).push(damage as i32),
            ),
            None => before,
        }
    }
}

/// No intent does more damage than an `i32` holds.
pub open spec fn hits_fit(intents: Seq<WantsToMelee>, actors: Seq<Actor>) -> bool {
    forall|k: int|
        0 <= k < intents.len() ==> (hit(#[trigger] intents[k], actors) matches Some(damage)
            ==> damage <= i32::MAX)
}

/// Whether no intent does more damage than an `i32` holds.
pub fn can_resolve(intents: &Vec<WantsToMelee>, actors: &Vec<Actor>) -> (ok: bool)
    ensures
        ok == hits_fit(intents@, actors@),
{
    let mut k: usize = 0;
    while k < intents.len()
        invariant
            k <= intents@.len(),
            forall|j: int|
                0 <= j < k ==> (hit(#[trigger] intents@[j], actors@) matches Some(damage)
                    ==> damage <= i32::MAX),
        decreases intents@.len() - k,
    {
        let attacker = find_actor(actors, intents[k].attacker);
        let target = find_actor(actors, intents[k].target);
        if let (Some(a), Some(t)) = (attacker, target) {
            if actors[a].stats.hp >= 0 && actors[t].stats.hp >= 0 && actors[a].stats.power as i64
                - actors[t].stats.defense as i64 > i32::MAX as i64 {
                return false;
            }
        }
        k += 1;
    }
    true
}

/// The hits that an actor has not yet paid for.
pub open spec fn amounts(actor: &Actor) -> Seq<i32> {
    match actor.suffer_damage {
        Some(suffered) => suffered.amount@,
        None => Seq::empty(),
    }
}

/// Same actor in everything but the damage suffered and not yet applied.
pub open spec fn same_but_suffering(before: &Actor, after: &Actor) -> bool {
    &&& after.id == before.id
    &&& after.position == before.position
    &&& after.stats == before.stats
    &&& after.viewshed == before.viewshed
    &&& after.is_blocking == before.is_blocking
    &&& after.is_player == before.is_player
    &&& after.shown == before.shown
}

/// What the damage `dealt` in a tick does to the actor `before`: if the actor was hit,
/// the hits are added, in their order, behind those it had not yet paid for; else
/// nothing changes. A handle names the first actor of the directory that has it, so
/// only an actor that is the `first` with its handle is ever hit.
pub open spec fn suffered(
    before: &Actor,
    after: &Actor,
    first: bool,
    dealt: Map<u64, Seq<i32>>,
) -> bool {
    &&& same_but_suffering(before, after)
    &&& if first && dealt.contains_key(before.id) {
        after.suffer_damage.is_some() && amounts(after) == amounts(before) + dealt[before.id]
    } else {
        after.suffer_damage == before.suffer_damage
    }
}

/// Whether the actor with number `i` is the first of the directory with its handle.
pub open spec fn is_first(actors: Seq<Actor>, i: int) -> bool {
    index_of_id(actors, actors[i].id) == i
}

/// The targets of the entries from `from` on.
pub open spec fn targets_from(pairs: Seq<(u64, Vec<i32>)>, from: int) -> Set<u64> {
    Set::new(
        |target: u64| exists|j: int| from <= j < pairs.len() && (#[trigger] pairs[j]).0 == target,
    )
}

/// Resolves the melee intents of a tick into damage. Each intent does the damage
/// that `hit` gives; the damage done to one target by all attackers is gathered in
/// the order of the intents and added to what the target has not yet paid for.
/// Nothing is taken from anyone's hit points here: stats stay as they are, whoever is
/// hit. The intents are used up. Should two actors share a handle, the handle names
/// the first of them, as attacker and as target.
pub fn melee_combat(intents: Vec<WantsToMelee>, actors: &mut Vec<Actor>)
    requires
        hits_fit(intents@, old(actors)@),
    ensures
        final(actors)@.len() == old(actors)@.len(),
        forall|i: int|
            0 <= i < old(actors)@.len() ==> suffered(
                &old(actors)@[i],
                #[trigger] &final(actors)@[i],
                is_first(old(actors)@, i),
                tally(intents@, old(actors)@),
            ),
{
    let mut damage_map = DamageMap::new();
    assert(intents@.take(0) == Seq::<WantsToMelee>::empty());
    let mut k: usize = 0;
    while k < intents.len()
        invariant
            k <= intents@.len(),
            actors@ == old(actors)@,
            hits_fit(intents@, actors@),
            pending(damage_map) == tally(intents@.take(k as int), actors@),
        decreases intents@.len() - k,
    {
        let intent: WantsToMelee = intents[k];
        let ghost before = pending(damage_map);
        proof {
            assert(intents@.take(k + 1).drop_last() == intents@.take(k as int));
            assert(intents@.take(k + 1).last() == intent);
            assert(hit(intents@[k as int], actors@) matches Some(damage) ==> damage <= i32::MAX);
        }
        let attacker = find_actor(actors, intent.attacker);
        let target = find_actor(actors, intent.target);
        if let (Some(a), Some(t)) = (attacker, target) {
            if actors[a].stats.hp >= 0 && actors[t].stats.hp >= 0 {
                let damage: i64 = actors[a].stats.power as i64 - actors[t].stats.defense as i64;
                if damage > 0 {
                    let damage: i32 = damage as i32;
                    let mut hits: Vec<i32> = match damage_map.remove(intent.target) {
                        Some(hits) => hits,
                        None => Vec::new(),
                    };
                    hits.push(damage);
                    damage_map.insert(intent.target, hits);
                    assert(pending(damage_map) == before.insert(
                        intent.target,
                        (if before.contains_key(intent.target) {
                            before[intent.target]
                        } else {
                            Seq::empty()
                        }).push(damage),
                    ));
                }
            }
        }
        k += 1;
    }
    assert(intents@.take(k as int) == intents@);
    let ghost dealt = pending(damage_map);
    let pairs = damage_map.into_pairs();
    let mut j: usize = pairs.len();
    proof {
        assert(dealt.restrict(targets_from(pairs@, j as int)) == Map::<u64, Seq<i32>>::empty());
    }
    while j > 0
        invariant
            j <= pairs@.len(),
            actors@.len() == old(actors)@.len(),
            forall|a: int, b: int|
                0 <= a < pairs@.len() && 0 <= b < pairs@.len() && a != b ==> (
                #[trigger] pairs@[a]).0 != (#[trigger] pairs@[b]).0,
            forall|a: int|
                0 <= a < pairs@.len() ==> dealt.contains_key((#[trigger] pairs@[a]).0)
                    && dealt[pairs@[a].0] == pairs@[a].1@,
            forall|i: int|
                0 <= i < actors@.len() ==> suffered(
                    &old(actors)@[i],
                    #[trigger] &actors@[i],
                    is_first(old(actors)@, i),
                    dealt.restrict(targets_from(pairs@, j as int)),
                ),
        decreases j,
    {
        j -= 1;
        let target: u64 = pairs[j].0;
        let ghost done = dealt.restrict(targets_from(pairs@, j + 1));
        let ghost done_now = dealt.restrict(targets_from(pairs@, j as int));
        let ghost before = actors@;
        proof {
            assert(!done.contains_key(target)) by {
                if done.contains_key(target) {
                    let other = choose|other: int|
                        j + 1 <= other < pairs@.len() && (#[trigger] pairs@[other]).0 == target;
                    assert(pairs@[other].0 != pairs@[j as int].0);
                }
            }
            assert(done_now.contains_key(target) && done_now[target] == pairs@[j as int].1@) by {
                assert(pairs@[j as int].0 == target);
            }
            assert forall|id: u64| id != target implies done_now.contains_key(id)
                == done.contains_key(id) && (done.contains_key(id) ==> done_now[id]
                == done[id]) by {
                if done_now.contains_key(id) {
                    let other = choose|other: int|
                        j <= other < pairs@.len() && (#[trigger] pairs@[other]).0 == id;
                    assert(other >= j + 1);
                }
                if done.contains_key(id) {
                    let other = choose|other: int|
                        j + 1 <= other < pairs@.len() && (#[trigger] pairs@[other]).0 == id;
                    assert(other >= j);
                }
            }
            assert forall|i: int| 0 <= i < actors@.len() implies (#[trigger] actors@[i]).id == old(
                actors,
            )@[i].id by {
                assert(suffered(
                    &old(actors)@[i],
                    &actors@[i],
                    is_first(old(actors)@, i),
                    done,
                ));
            }
            lemma_index_of_id_same_ids(actors@, old(actors)@, target);
            lemma_index_of_id(old(actors)@, target);
        }
        let found = find_actor(actors, target);
        match found {
            Some(at) => {
                assert(suffered(
                    &old(actors)@[at as int],
                    &actors@[at as int],
                    is_first(old(actors)@, at as int),
                    done,
                ));
                let current: Option<SufferDamage> = actors[at].suffer_damage.take();
                let mut amount: Vec<i32> = match current {
                    Some(suffering) => suffering.amount,
                    None => Vec::new(),
                };
                assert(amount@ == amounts(&old(actors)@[at as int]));
                append_hits(&mut amount, &pairs[j].1);
                actors[at].suffer_damage = Some(SufferDamage { amount });
                proof {
                    assert forall|i: int| 0 <= i < actors@.len() implies suffered(
                        &old(actors)@[i],
                        #[trigger] &actors@[i],
                        is_first(old(actors)@, i),
                        done_now,
                    ) by {
                        if i != at {
                            assert(actors@[i] == before[i]);
                            assert(suffered(
                                &old(actors)@[i],
                                &before[i],
                                is_first(old(actors)@, i),
                                done,
                            ));
                        }
                    }
                }
            },
            None => {
                proof {
                    assert forall|i: int| 0 <= i < actors@.len() implies suffered(
                        &old(actors)@[i],
                        #[trigger] &actors@[i],
                        is_first(old(actors)@, i),
                        done_now,
                    ) by {
                        assert(suffered(
                            &old(actors)@[i],
                            &before[i],
                            is_first(old(actors)@, i),
                            done,
                        ));
                        assert(old(actors)@[i].id != target);
                    }
                }
            },
        }
    }
    proof {
        assert(dealt.restrict(targets_from(pairs@, 0)) == dealt);
    }
}

/// Puts `hits` behind what `amount` holds.
fn append_hits(amount: &mut Vec<i32>, hits: &Vec<i32>)
    ensures
        final(amount)@ == old(amount)@ + hits@,
{
    let mut i: usize = 0;
    while i < hits.len()
        invariant
            i <= hits@.len(),
            amount@ == old(amount)@ + hits@.take(i as int),
        decreases hits@.len() - i,
    {
        amount.push(hits[i]);
        assert(hits@.take(i + 1) == hits@.take(i as int).push(hits@[i as int]));
        i += 1;
    }
    assert(hits@.take(i as int) == hits@);
}

/// The sum of `hits`.
pub open spec fn total(hits: Seq<i32>) -> int
    decreases hits.len(),
{
    if hits.len() == 0 {
        0
    } else {
        total(hits.drop_last()) + hits.last()
    }
}

/// Each actor's hit points less all it has not yet paid for fit an `i32`.
pub open spec fn damage_fits(actors: Seq<Actor>) -> bool {
    forall|i: int|
        0 <= i < actors.len() ==> i32::MIN <= (#[trigger] actors[i]).stats.hp - total(
            amounts(&actors[i]),
        ) <= i32::MAX
}

/// Whether each actor's hit points less all it has not yet paid for fit an `i32`.
pub fn can_apply(actors: &Vec<Actor>) -> (ok: bool)
    ensures
        ok == damage_fits(actors@),
{
    let mut i: usize = 0;
    while i < actors.len()
        invariant
            i <= actors@.len(),
            forall|j: int|
                0 <= j < i ==> i32::MIN <= (#[trigger] actors@[j]).stats.hp - total(
                    amounts(&actors@[j]),
                ) <= i32::MAX,
        decreases actors@.len() - i,
    {
        let owed: i128 = match &actors[i].suffer_damage {
            Some(suffering) => {
                assert(suffering.amount@.len() == suffering.amount.len());
                sum_hits(&suffering.amount)
            },
            None => 0,
        };
        assert(-0x8000_0000 * 0x1_0000_0000_0000_0000 <= owed <= 0x8000_0000
            * 0x1_0000_0000_0000_0000);
        let left: i128 = actors[i].stats.hp as i128 - owed;
        if left < i32::MIN as i128 || left > i32::MAX as i128 {
            return false;
        }
        i += 1;
    }
    true
}

/// What applying the damage does to the actor `before`: the sum of all it had not
/// yet paid for is taken from its hit points at once, and nothing is left to pay.
pub open spec fn paid(before: &Actor, after: &Actor) -> bool {
    &&& after.id == before.id
    &&& after.position == before.position
    &&& after.viewshed == before.viewshed
    &&& after.is_blocking == before.is_blocking
    &&& after.is_player == before.is_player
    &&& after.shown == before.shown
    &&& after.suffer_damage.is_none()
    &&& after.stats.max_hp == before.stats.max_hp
    &&& after.stats.defense == before.stats.defense
    &&& after.stats.power == before.stats.power
    &&& after.stats.hp == before.stats.hp - total(amounts(before))
}

/// Adds up `hits`.
fn sum_hits(hits: &Vec<i32>) -> (sum: i128)
    ensures
        sum == total(hits@),
        -0x8000_0000 * hits@.len() <= sum <= 0x8000_0000 * hits@.len(),
{
    let mut sum: i128 = 0;
    assert(hits@.take(0) == Seq::<i32>::empty());
    let mut i: usize = 0;
    while i < hits.len()
        invariant
            i <= hits@.len(),
            sum == total(hits@.take(i as int)),
            -0x8000_0000 * i <= sum <= 0x8000_0000 * i,
        decreases hits@.len() - i,
    {
        proof {
            assert(hits@.take(i + 1).drop_last() == hits@.take(i as int));
            assert(hits@.take(i + 1).last() == hits@[i as int]);
        }
        sum = sum + hits[i] as i128;
        i += 1;
    }
    assert(hits@.take(i as int) == hits@);
    sum
}

/// Applies the damage of a tick: each actor pays for all its hits in one go.
pub fn apply_damage(actors: &mut Vec<Actor>)
    requires
        damage_fits(old(actors)@),
    ensures
        final(actors)@.len() == old(actors)@.len(),
        forall|i: int|
            0 <= i < old(actors)@.len() ==> paid(&old(actors)@[i], #[trigger] &final(actors)@[i]),
{
    let mut i: usize = 0;
    while i < actors.len()
        invariant
            i <= actors@.len(),
            actors@.len() == old(actors)@.len(),
            damage_fits(old(actors)@),
            forall|j: int| 0 <= j < i ==> paid(&old(actors)@[j], #[trigger] &actors@[j]),
            forall|j: int| i <= j < actors@.len() ==> actors@[j] == old(actors)@[j],
        decreases actors@.len() - i,
    {
        let ghost before = actors@;
        assert(actors@[i as int] == old(actors)@[i as int]);
        let current: Option<SufferDamage> = actors[i].suffer_damage.take();
        match current {
            Some(suffering) => {
                let sum: i128 = sum_hits(&suffering.amount);
                actors[i].stats.hp = (actors[i].stats.hp as i128 - sum) as i32;
            },
            None => {},
        }
        proof {
            assert forall|j: int| 0 <= j < i + 1 implies paid(
                &old(actors)@[j],
                #[trigger] &actors@[j],
            ) by {
                if j < i {
                    assert(actors@[j] == before[j]);
                }
            }
        }
        i += 1;
    }
}

/// The actors with hit points left, in their order.
pub open spec fn survivors(actors: Seq<Actor>) -> Seq<Actor>
    decreases actors.len(),
{
    if actors.len() == 0 {
        Seq::empty()
    } else {
        let alive = survivors(actors.drop_last());
        if actors.last().stats.hp > 0 {
            alive.push(actors.last())
        } else {
            alive
        }
    }
}

/// Whether the player is among `actors` with no hit points left.
pub open spec fn player_fell(actors: Seq<Actor>) -> bool {
    exists|i: int|
        0 <= i < actors.len() && (#[trigger] actors[i]).is_player && actors[i].stats.hp <= 0
}

/// Removes every actor whose hit points are at or below zero, and says whether the
/// player was one of them: then the session is over.
pub fn delete_the_dead(actors: &mut Vec<Actor>) -> (player_defeated: bool)
    ensures
        final(actors)@ == survivors(old(actors)@),
        player_defeated == player_fell(old(actors)@),
{
    let mut player_defeated: bool = false;
    let ghost all = actors@;
    let mut seen: Ghost<int> = Ghost(0);
    let mut i: usize = 0;
    assert(all.take(0) == Seq::<Actor>::empty());
    assert(all.skip(0) == all);
    while i < actors.len()
        invariant
            all == old(actors)@,
            0 <= seen@ <= all.len(),
            i <= actors@.len(),
            actors@.take(i as int) == survivors(all.take(seen@)),
            actors@.skip(i as int) == all.skip(seen@),
            player_defeated == player_fell(all.take(seen@)),
        decreases actors@.len() - i,
    {
        let ghost before = actors@;
        proof {
            assert(before.skip(i as int).len() == before.len() - i);
            assert(all.skip(seen@).len() == all.len() - seen@);
            assert(before[i as int] == before.skip(i as int)[0]);
            assert(all.skip(seen@)[0] == all[seen@]);
            assert(all.take(seen@ + 1).drop_last() == all.take(seen@));
            assert(all.take(seen@ + 1).last() == all[seen@]);
            lemma_fell_push(all.take(seen@), all[seen@]);
            assert(all.take(seen@ + 1) == all.take(seen@).push(all[seen@]));
        }
        if actors[i].stats.hp <= 0 {
            if actors[i].is_player {
                player_defeated = true;
            }
            actors.remove(i);
            proof {
                assert(actors@.take(i as int) == before.take(i as int));
                assert(actors@.skip(i as int) == before.skip(i as int).skip(1));
                assert(all.skip(seen@).skip(1) == all.skip(seen@ + 1));
                seen@ = seen@ + 1;
            }
        } else {
            proof {
                assert(actors@.take(i + 1) == before.take(i as int).push(before[i as int]));
                assert(actors@.skip(i + 1) == before.skip(i as int).skip(1));
                assert(all.skip(seen@).skip(1) == all.skip(seen@ + 1));
                seen@ = seen@ + 1;
            }
            i += 1;
        }
    }
    proof {
        assert(actors@.take(i as int) == actors@);
        assert(actors@.skip(i as int).len() == 0);
        assert(all.skip(seen@).len() == all.len() - seen@);
        assert(all.take(seen@) == all);
    }
    player_defeated
}

/// The player is among the fallen of a longer list exactly if it is among those of
/// the shorter one or is the added actor, fallen.
proof fn lemma_fell_push(actors: Seq<Actor>, added: Actor)
    ensures
        player_fell(actors.push(added)) == (player_fell(actors) || (added.is_player
            && added.stats.hp <= 0)),
{
    let longer = actors.push(added);
    if player_fell(actors) {
        let i = choose|i: int|
            0 <= i < actors.len() && (#[trigger] actors[i]).is_player && actors[i].stats.hp <= 0;
        assert(longer[i] == actors[i]);
    }
    if added.is_player && added.stats.hp <= 0 {
        assert(longer[actors.len() as int] == added);
    }
    if player_fell(longer) {
        let i = choose|i: int|
            0 <= i < longer.len() && (#[trigger] longer[i]).is_player && longer[i].stats.hp <= 0;
        if i < actors.len() {
            assert(longer[i] == actors[i]);
        }
    }
}

/// Damage adds up: what two runs of hits take together is what the one takes and
/// then the other.
pub proof fn lemma_total_adds(first: Seq<i32>, second: Seq<i32>)
    ensures
        total(first + second) == total(first) + total(second),
    decreases second.len(),
{
    if second.len() == 0 {
        assert(first + second == first);
    } else {
        assert((first + second).drop_last() == first + second.drop_last());
        lemma_total_adds(first, second.drop_last());
    }
}

/// Intents that do no damage leave no trace: if `hit` gives none for each of them, the
/// tally holds no target.
pub proof fn lemma_harmless_intents(intents: Seq<WantsToMelee>, actors: Seq<Actor>)
    requires
        forall|k: int| 0 <= k < intents.len() ==> hit(#[trigger] intents[k], actors).is_none(),
    ensures
        tally(intents, actors) == empty_tally(),
    decreases intents.len(),
{
    if intents.len() > 0 {
        let before = intents.drop_last();
        assert forall|k: int| 0 <= k < before.len() implies hit(
            #[trigger] before[k],
            actors,
        ).is_none() by {
            assert(before[k] == intents[k]);
        }
        lemma_harmless_intents(before, actors);
        assert(hit(intents[intents.len() - 1], actors).is_none());
    }
}

/// A strike at a target whose defense is at least the attacker's power does no
/// damage.
pub proof fn lemma_absorbed_strike(intent: WantsToMelee, actors: Seq<Actor>)
    requires
        index_of_id(actors, intent.attacker) < actors.len(),
        index_of_id(actors, intent.target) < actors.len(),
        actors[index_of_id(actors, intent.attacker)].stats.power <= actors[index_of_id(
            actors,
            intent.target,
        )].stats.defense,
    ensures
        hit(intent, actors).is_none(),
{
}

/// The death sweep keeps exactly the living: every actor it keeps has hit points
/// left, every actor with hit points left is kept, and nobody is kept who was not
/// there.
pub proof fn lemma_survivors(actors: Seq<Actor>)
    ensures
        forall|i: int|
            0 <= i < survivors(actors).len() ==> (#[trigger] survivors(actors)[i]).stats.hp > 0
                && actors.contains(survivors(actors)[i]),
        forall|i: int|
            0 <= i < actors.len() && (#[trigger] actors[i]).stats.hp > 0 ==> survivors(
                actors,
            ).contains(actors[i]),
    decreases actors.len(),
{
    if actors.len() > 0 {
        let before = actors.drop_last();
        let kept = survivors(before);
        let all = survivors(actors);
        lemma_survivors(before);
        assert forall|i: int| 0 <= i < all.len() implies (#[trigger] all[i]).stats.hp > 0
            && actors.contains(all[i]) by {
            if i < kept.len() {
                assert(all[i] == kept[i]);
                assert(before.contains(kept[i]));
                let j = choose|j: int| 0 <= j < before.len() && before[j] == kept[i];
                assert(actors[j] == kept[i]);
            } else {
                assert(all[i] == actors[actors.len() - 1]);
            }
        }
        assert forall|i: int| 0 <= i < actors.len() && (#[trigger] actors[i]).stats.hp
            > 0 implies all.contains(actors[i]) by {
            if i < before.len() {
                assert(before[i] == actors[i]);
                assert(kept.contains(before[i]));
                let j = choose|j: int| 0 <= j < kept.len() && kept[j] == before[i];
                assert(all[j] == actors[i]);
            } else {
                assert(all[all.len() - 1] == actors[i]);
            }
        }
    }
}

/// The death sweep keeps a directory in order: if no two actors shared a handle,
/// no two survivors do, and if there was at most one player, there still is.
pub proof fn lemma_survivors_in_order(actors: Seq<Actor>)
    ensures
        distinct_ids(actors) ==> distinct_ids(survivors(actors)),
        one_player(actors) ==> one_player(survivors(actors)),
    decreases actors.len(),
{
    if actors.len() > 0 {
        let before = actors.drop_last();
        let last = actors.last();
        let kept = survivors(before);
        let all = survivors(actors);
        lemma_survivors_in_order(before);
        lemma_survivors(before);
        assert forall|i: int| 0 <= i < kept.len() implies exists|j: int|
            0 <= j < before.len() && actors[j] == #[trigger] kept[i] by {
            assert(before.contains(kept[i]));
            let j = choose|j: int| 0 <= j < before.len() && before[j] == kept[i];
            assert(actors[j] == kept[i]);
        }
        if distinct_ids(actors) {
            assert(distinct_ids(before)) by {
                assert forall|i: int, j: int|
                    0 <= i < before.len() && 0 <= j < before.len() && i != j implies (
                #[trigger] before[i]).id != (#[trigger] before[j]).id by {
                    assert(actors[i].id != actors[j].id);
                }
            }
            assert forall|i: int, j: int|
                0 <= i < all.len() && 0 <= j < all.len() && i != j implies (#[trigger] all[i]).id
                != (#[trigger] all[j]).id by {
                if i < kept.len() && j < kept.len() {
                    assert(kept[i].id != kept[j].id);
                } else if i < kept.len() {
                    let at = choose|at: int| 0 <= at < before.len() && actors[at] == kept[i];
                    assert(actors[at].id != actors[actors.len() - 1].id);
                } else {
                    let at = choose|at: int| 0 <= at < before.len() && actors[at] == kept[j];
                    assert(actors[at].id != actors[actors.len() - 1].id);
                }
            }
        }
        if one_player(actors) {
            assert(one_player(before)) by {
                assert forall|i: int, j: int|
                    0 <= i < before.len() && 0 <= j < before.len() && (
                    #[trigger] before[i]).is_player && (
                    #[trigger] before[j]).is_player implies i == j by {
                    assert(actors[i].is_player && actors[j].is_player);
                }
            }
            assert forall|i: int, j: int|
                0 <= i < all.len() && 0 <= j < all.len() && (#[trigger] all[i]).is_player && (
                #[trigger] all[j]).is_player implies i == j by {
                if i < kept.len() && j < kept.len() {
                    assert(kept[i].is_player && kept[j].is_player);
                } else if i < kept.len() {
                    let at = choose|at: int| 0 <= at < before.len() && actors[at] == kept[i];
                    assert(actors[at].is_player && actors[actors.len() - 1].is_player);
                } else if j < kept.len() {
                    let at = choose|at: int| 0 <= at < before.len() && actors[at] == kept[j];
                    assert(actors[at].is_player && actors[actors.len() - 1].is_player);
                }
            }
        }
    }
}

} // verus!
