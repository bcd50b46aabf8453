use roguelike::actor::Actor;
use roguelike::combat::{
    apply_damage, can_apply, can_resolve, delete_the_dead, melee_combat, CombatStats,
    SufferDamage, WantsToMelee,
};
use roguelike::map::{Position, Viewshed};

fn fighter(id: u64, hp: i32, defense: i32, power: i32) -> Actor {
    Actor {
        id,
        position: Position { x: id as usize, y: 1 },
        stats: CombatStats { max_hp: 30, hp, defense, power },
        viewshed: Viewshed { visible_tiles: Vec::new(), range: 8, dirty: false },
        is_blocking: true,
        is_player: false,
        shown: true,
        suffer_damage: None,
    }
}

fn strike(attacker: u64, target: u64) -> WantsToMelee {
    WantsToMelee { attacker, target }
}

fn pending(actor: &Actor) -> Option<Vec<i32>> {
    actor.suffer_damage.as_ref().map(|s| s.amount.clone())
}

#[test]
fn two_attackers_add_up() {
    let mut actors = vec![fighter(1, 30, 2, 0), fighter(2, 10, 0, 5), fighter(3, 10, 0, 3)];
    melee_combat(vec![strike(2, 1), strike(3, 1)], &mut actors);
    assert_eq!(pending(&actors[0]), Some(vec![3, 1]));
    assert_eq!(pending(&actors[1]), None);
    assert_eq!(pending(&actors[2]), None);
    assert_eq!(actors[0].stats.hp, 30);
    apply_damage(&mut actors);
    assert_eq!(actors[0].stats.hp, 26);
    assert_eq!(actors[1].stats.hp, 10);
    assert_eq!(actors[2].stats.hp, 10);
    assert!(actors.iter().all(|a| a.suffer_damage.is_none()));
}

#[test]
fn hits_keep_the_order_of_the_intents() {
    let mut actors = vec![fighter(1, 30, 2, 4), fighter(2, 30, 1, 5), fighter(3, 30, 0, 3)];
    melee_combat(
        vec![strike(3, 1), strike(2, 1), strike(1, 2), strike(3, 2), strike(2, 3), strike(3, 1)],
        &mut actors,
    );
    assert_eq!(pending(&actors[0]), Some(vec![1, 3, 1]));
    assert_eq!(pending(&actors[1]), Some(vec![3, 2]));
    assert_eq!(pending(&actors[2]), Some(vec![5]));
}

#[test]
fn absorbed_strike_does_nothing() {
    let mut actors = vec![fighter(1, 10, 3, 0), fighter(2, 10, 0, 1), fighter(3, 10, 0, 3)];
    melee_combat(vec![strike(2, 1), strike(3, 1)], &mut actors);
    assert!(actors.iter().all(|a| a.suffer_damage.is_none()));
    apply_damage(&mut actors);
    assert_eq!(actors[0].stats.hp, 10);
}

#[test]
fn hits_join_what_is_still_owed() {
    let mut actors = vec![fighter(1, 30, 2, 0), fighter(2, 10, 0, 5)];
    actors[0].suffer_damage = Some(SufferDamage { amount: vec![7] });
    actors[1].suffer_damage = Some(SufferDamage { amount: vec![] });
    melee_combat(vec![strike(2, 1)], &mut actors);
    assert_eq!(pending(&actors[0]), Some(vec![7, 3]));
    assert_eq!(pending(&actors[1]), Some(vec![]));
    apply_damage(&mut actors);
    assert_eq!(actors[0].stats.hp, 20);
    assert_eq!(actors[1].stats.hp, 10);
}

#[test]
fn below_zero_neither_strikes_nor_is_struck() {
    let mut actors = vec![fighter(1, -1, 0, 5), fighter(2, 10, 0, 5)];
    melee_combat(vec![strike(1, 2), strike(2, 1)], &mut actors);
    assert!(actors.iter().all(|a| a.suffer_damage.is_none()));
}

#[test]
fn at_zero_an_actor_still_strikes_and_is_struck() {
    let mut actors = vec![fighter(1, 0, 0, 5), fighter(2, 10, 1, 2)];
    melee_combat(vec![strike(1, 2), strike(2, 1)], &mut actors);
    assert_eq!(pending(&actors[0]), Some(vec![2]));
    assert_eq!(pending(&actors[1]), Some(vec![4]));
}

#[test]
fn intent_that_names_nobody_is_dropped() {
    let mut actors = vec![fighter(1, 10, 0, 5), fighter(2, 10, 0, 5)];
    melee_combat(vec![strike(1, 9), strike(9, 2), strike(8, 9), strike(1, 2)], &mut actors);
    assert_eq!(pending(&actors[0]), None);
    assert_eq!(pending(&actors[1]), Some(vec![5]));
}

#[test]
fn no_intents_no_damage() {
    let mut actors = vec![fighter(1, 10, 0, 5)];
    melee_combat(Vec::new(), &mut actors);
    assert!(actors[0].suffer_damage.is_none());
    let mut nobody: Vec<Actor> = Vec::new();
    melee_combat(vec![strike(1, 2)], &mut nobody);
    assert!(nobody.is_empty());
}

#[test]
fn an_actor_can_strike_itself() {
    let mut actors = vec![fighter(1, 10, 1, 5)];
    melee_combat(vec![strike(1, 1)], &mut actors);
    assert_eq!(pending(&actors[0]), Some(vec![4]));
}

#[test]
fn combat_changes_nothing_but_the_damage_owed() {
    let mut actors = vec![fighter(1, 30, 2, 7), fighter(2, 10, 0, 5)];
    actors[0].is_player = true;
    melee_combat(vec![strike(2, 1)], &mut actors);
    assert_eq!(actors[0].id, 1);
    assert_eq!(actors[0].position, Position { x: 1, y: 1 });
    assert_eq!(actors[0].stats, CombatStats { max_hp: 30, hp: 30, defense: 2, power: 7 });
    assert!(actors[0].is_player);
    assert!(actors[0].is_blocking);
    assert!(actors[0].shown);
    assert_eq!(actors[0].viewshed.range, 8);
}

#[test]
fn many_targets_each_get_their_own() {
    let mut actors: Vec<Actor> = (0..50).map(|i| fighter(i, 100, 0, 1 + i as i32)).collect();
    let mut intents = Vec::new();
    for i in 0..50u64 {
        intents.push(strike(i, (i + 1) % 50));
        intents.push(strike(i, (i + 2) % 50));
    }
    melee_combat(intents, &mut actors);
    for t in 0..50u64 {
        let one = 1 + ((t + 49) % 50) as i32;
        let two = 1 + ((t + 48) % 50) as i32;
        let mut got = pending(&actors[t as usize]).unwrap();
        assert_eq!(got.len(), 2);
        // the attacker with the smaller handle comes first in the intents
        let expected = if (t + 49) % 50 < (t + 48) % 50 { vec![one, two] } else { vec![two, one] };
        assert_eq!(got, expected);
        got.clear();
    }
}

#[test]
fn damage_is_paid_in_one_go() {
    let mut actors = vec![fighter(1, 20, 0, 0), fighter(2, 5, 0, 0), fighter(3, 7, 0, 0)];
    actors[0].suffer_damage = Some(SufferDamage { amount: vec![3, 4, 5] });
    actors[1].suffer_damage = Some(SufferDamage { amount: vec![] });
    apply_damage(&mut actors);
    assert_eq!(actors[0].stats.hp, 8);
    assert_eq!(actors[1].stats.hp, 5);
    assert_eq!(actors[2].stats.hp, 7);
    assert!(actors.iter().all(|a| a.suffer_damage.is_none()));
    assert_eq!(actors[0].stats.max_hp, 30);
    apply_damage(&mut actors);
    assert_eq!(actors[0].stats.hp, 8);
}

#[test]
fn damage_can_take_hit_points_below_zero() {
    let mut actors = vec![fighter(1, 3, 0, 0)];
    actors[0].suffer_damage = Some(SufferDamage { amount: vec![i32::MAX, 5] });
    actors[0].stats.hp = i32::MAX;
    apply_damage(&mut actors);
    assert_eq!(actors[0].stats.hp, -5);
}

#[test]
fn negative_amounts_give_hit_points_back() {
    let mut actors = vec![fighter(1, 3, 0, 0)];
    actors[0].suffer_damage = Some(SufferDamage { amount: vec![-4, 1] });
    apply_damage(&mut actors);
    assert_eq!(actors[0].stats.hp, 6);
}

#[test]
fn the_dead_are_removed() {
    let mut actors = vec![
        fighter(1, 0, 0, 0),
        fighter(2, 1, 0, 0),
        fighter(3, -4, 0, 0),
        fighter(4, 9, 0, 0),
        fighter(5, 0, 0, 0),
    ];
    assert!(!delete_the_dead(&mut actors));
    assert_eq!(actors.iter().map(|a| a.id).collect::<Vec<_>>(), vec![2, 4]);
    assert!(!delete_the_dead(&mut actors));
    assert_eq!(actors.len(), 2);
}

#[test]
fn five_damage_kills_five_hit_points() {
    let mut actors = vec![fighter(1, 5, 1, 0), fighter(2, 10, 0, 4), fighter(3, 10, 0, 3)];
    melee_combat(vec![strike(2, 1), strike(3, 1)], &mut actors);
    apply_damage(&mut actors);
    assert_eq!(actors[0].stats.hp, 0);
    assert!(!delete_the_dead(&mut actors));
    assert_eq!(actors.iter().map(|a| a.id).collect::<Vec<_>>(), vec![2, 3]);
}

#[test]
fn the_fall_of_the_player_is_reported() {
    let mut actors = vec![fighter(1, 12, 0, 6), fighter(0, 5, 1, 5)];
    actors[1].is_player = true;
    melee_combat(vec![strike(1, 0), strike(0, 1)], &mut actors);
    apply_damage(&mut actors);
    assert_eq!(actors[0].stats.hp, 7);
    assert_eq!(actors[1].stats.hp, 0);
    assert!(delete_the_dead(&mut actors));
    assert_eq!(actors.len(), 1);
    assert_eq!(actors[0].id, 1);
}

#[test]
fn a_living_player_is_not_reported() {
    let mut actors = vec![fighter(1, 0, 0, 6), fighter(0, 5, 1, 5)];
    actors[1].is_player = true;
    assert!(!delete_the_dead(&mut actors));
    assert_eq!(actors.len(), 1);
    assert!(actors[0].is_player);
    let mut nobody: Vec<Actor> = Vec::new();
    assert!(!delete_the_dead(&mut nobody));
}

#[test]
fn damage_that_fits_can_be_resolved() {
    let mut actors = vec![fighter(1, 10, i32::MIN, 0), fighter(2, 10, 0, i32::MAX)];
    assert!(can_resolve(&vec![strike(1, 2)], &actors));
    assert!(can_resolve(&vec![strike(2, 2)], &actors));
    assert!(!can_resolve(&vec![strike(1, 2), strike(2, 1)], &actors));
    // what names nobody, or somebody below zero, does no damage at all
    assert!(can_resolve(&vec![strike(2, 9), strike(9, 1)], &actors));
    actors[0].stats.hp = -1;
    assert!(can_resolve(&vec![strike(2, 1)], &actors));
    actors[0].stats.hp = 0;
    actors[0].stats.defense = -1;
    assert!(!can_resolve(&vec![strike(2, 1)], &actors));
    actors[0].stats.defense = 0;
    assert!(can_resolve(&vec![strike(2, 1)], &actors));
    melee_combat(vec![strike(2, 1)], &mut actors);
    assert_eq!(pending(&actors[0]), Some(vec![i32::MAX]));
}

#[test]
fn damage_that_fits_can_be_applied() {
    let mut actors = vec![fighter(1, i32::MIN + 5, 0, 0), fighter(2, 0, 0, 0)];
    assert!(can_apply(&actors));
    actors[0].suffer_damage = Some(SufferDamage { amount: vec![3, 2] });
    assert!(can_apply(&actors));
    actors[0].suffer_damage = Some(SufferDamage { amount: vec![3, 3] });
    assert!(!can_apply(&actors));
    actors[0].suffer_damage =
        Some(SufferDamage { amount: vec![i32::MAX, i32::MAX, i32::MIN, i32::MIN, 7] });
    assert!(can_apply(&actors));
    apply_damage(&mut actors);
    assert_eq!(actors[0].stats.hp, i32::MIN);
    actors[1].stats.hp = i32::MAX;
    actors[1].suffer_damage = Some(SufferDamage { amount: vec![-1] });
    assert!(!can_apply(&actors));
}

#[test]
fn a_handle_names_the_first_actor_that_has_it() {
    let mut actors = vec![fighter(1, 10, 0, 5), fighter(2, 10, 1, 0), fighter(2, 10, 4, 9)];
    melee_combat(vec![strike(1, 2), strike(2, 1)], &mut actors);
    assert_eq!(pending(&actors[0]), None);
    assert_eq!(pending(&actors[1]), Some(vec![4]));
    assert_eq!(pending(&actors[2]), None);
    assert_eq!(actors[2].stats, CombatStats { max_hp: 30, hp: 10, defense: 4, power: 9 });
}
