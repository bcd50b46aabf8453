use roguelike::actor::{map_index, Actor};
use roguelike::combat::{CombatStats, WantsToMelee};
use roguelike::map::{Grid, Position, Tile, Viewshed};
use roguelike::player::player_input;

fn open_grid(cols: usize, rows: usize) -> Grid {
    let mut map = Grid::new(cols, rows, 16);
    for y in 1..rows - 1 {
        for x in 1..cols - 1 {
            map.set_tile(x, y, Tile::Floor);
        }
    }
    map.populate_blocked();
    map
}

fn actor(id: u64, x: usize, y: usize, is_player: bool) -> Actor {
    Actor {
        id,
        position: Position { x, y },
        stats: CombatStats { max_hp: 10, hp: 10, defense: 1, power: 2 },
        viewshed: Viewshed { visible_tiles: vec![Position { x, y }], range: 8, dirty: false },
        is_blocking: !is_player,
        is_player,
        shown: true,
        suffer_damage: None,
    }
}

#[test]
fn step_onto_a_free_cell() {
    let map = open_grid(7, 7);
    let mut actors = vec![actor(4, 5, 5, false), actor(0, 3, 3, true)];
    let intents = player_input(&map, &mut actors, Some((1, -1)));
    assert!(intents.is_empty());
    assert_eq!(actors[1].position, Position { x: 4, y: 2 });
    assert!(actors[1].viewshed.dirty);
    assert_eq!(actors[1].viewshed.visible_tiles, vec![Position { x: 3, y: 3 }]);
    assert_eq!(actors[1].id, 0);
    assert_eq!(actors[0].position, Position { x: 5, y: 5 });
    assert!(!actors[0].viewshed.dirty);
}

#[test]
fn every_direction_moves_by_one() {
    for dx in -1i32..=1 {
        for dy in -1i32..=1 {
            let map = open_grid(7, 7);
            let mut actors = vec![actor(0, 3, 3, true)];
            player_input(&map, &mut actors, Some((dx, dy)));
            assert_eq!(
                actors[0].position,
                Position { x: (3 + dx) as usize, y: (3 + dy) as usize }
            );
            assert!(actors[0].viewshed.dirty);
        }
    }
}

#[test]
fn no_intent_no_move() {
    let map = open_grid(7, 7);
    let mut actors = vec![actor(0, 3, 3, true)];
    let intents = player_input(&map, &mut actors, None);
    assert!(intents.is_empty());
    assert_eq!(actors[0].position, Position { x: 3, y: 3 });
    assert!(!actors[0].viewshed.dirty);
}

#[test]
fn no_player_no_move() {
    let map = open_grid(7, 7);
    let mut actors = vec![actor(4, 3, 3, false)];
    let intents = player_input(&map, &mut actors, Some((1, 0)));
    assert!(intents.is_empty());
    assert_eq!(actors[0].position, Position { x: 3, y: 3 });
    assert!(!actors[0].viewshed.dirty);
}

#[test]
fn a_wall_stops_the_player() {
    let map = open_grid(7, 7);
    let mut actors = vec![actor(0, 1, 1, true)];
    let intents = player_input(&map, &mut actors, Some((-1, 0)));
    assert!(intents.is_empty());
    assert_eq!(actors[0].position, Position { x: 1, y: 1 });
    assert!(!actors[0].viewshed.dirty);
}

#[test]
fn a_move_off_the_grid_is_dropped() {
    let mut map = Grid::new(3, 3, 16);
    map.fill(Tile::Floor);
    for (x, y, delta) in [
        (0usize, 0usize, (-1, 0)),
        (0, 0, (0, -1)),
        (2, 2, (1, 0)),
        (2, 2, (0, 1)),
        (1, 1, (i32::MAX, 0)),
        (1, 1, (0, i32::MIN)),
        (1, 1, (2, 0)),
    ] {
        let mut actors = vec![actor(0, x, y, true)];
        let intents = player_input(&map, &mut actors, Some(delta));
        assert!(intents.is_empty());
        assert_eq!(actors[0].position, Position { x, y });
        assert!(!actors[0].viewshed.dirty);
    }
}

#[test]
fn bump_into_a_monster_attacks_it() {
    let mut map = open_grid(7, 7);
    let mut actors = vec![actor(0, 3, 3, true), actor(8, 4, 3, false), actor(9, 5, 5, false)];
    map_index(&mut map, &actors);
    let intents = player_input(&map, &mut actors, Some((1, 0)));
    assert_eq!(intents, vec![WantsToMelee { attacker: 0, target: 8 }]);
    assert_eq!(actors[0].position, Position { x: 3, y: 3 });
    assert!(!actors[0].viewshed.dirty);
    assert_eq!(actors[1].position, Position { x: 4, y: 3 });
}

#[test]
fn bump_strikes_every_occupant_in_order() {
    let mut map = open_grid(7, 7);
    let mut actors = vec![
        actor(21, 4, 4, false),
        actor(5, 3, 3, true),
        actor(22, 4, 4, false),
    ];
    map_index(&mut map, &actors);
    let intents = player_input(&map, &mut actors, Some((1, 1)));
    assert_eq!(
        intents,
        vec![WantsToMelee { attacker: 5, target: 21 }, WantsToMelee { attacker: 5, target: 22 }]
    );
    assert_eq!(actors[1].position, Position { x: 3, y: 3 });
}

#[test]
fn an_occupant_that_is_gone_is_no_target() {
    let mut map = open_grid(7, 7);
    let mut actors = vec![actor(0, 3, 3, true), actor(8, 4, 3, false)];
    map_index(&mut map, &actors);
    actors.pop();
    let intents = player_input(&map, &mut actors, Some((1, 0)));
    assert!(intents.is_empty());
    assert_eq!(actors[0].position, Position { x: 3, y: 3 });
    assert!(!actors[0].viewshed.dirty);
}
