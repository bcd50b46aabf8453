use roguelike::actor::Actor;
use roguelike::combat::{CombatStats, WantsToMelee};
use roguelike::map::{Grid, Position, Tile, Viewshed};
use roguelike::monster::{follow_path, monster_ai, move_enemy, sees_cell, MonsterAction};

fn open_grid(cols: usize, rows: usize) -> Grid {
    let mut map = Grid::new(cols, rows, 16);
    for y in 1..rows - 1 {
        for x in 1..cols - 1 {
            map.set_tile(x, y, Tile::Floor);
        }
    }
    map.populate_blocked();
    map
}

fn monster(id: u64, x: usize, y: usize, sees: &[(usize, usize)]) -> Actor {
    Actor {
        id,
        position: Position { x, y },
        stats: CombatStats { max_hp: 16, hp: 16, defense: 1, power: 3 },
        viewshed: Viewshed {
            visible_tiles: sees.iter().map(|c| Position { x: c.0, y: c.1 }).collect(),
            range: 8,
            dirty: false,
        },
        is_blocking: true,
        is_player: false,
        shown: false,
        suffer_damage: None,
    }
}

#[test]
fn sees_cell_looks_through_the_list() {
    let tiles = vec![Position { x: 1, y: 2 }, Position { x: 3, y: 4 }];
    assert!(sees_cell(&tiles, Position { x: 3, y: 4 }));
    assert!(sees_cell(&tiles, Position { x: 1, y: 2 }));
    assert!(!sees_cell(&tiles, Position { x: 2, y: 1 }));
    assert!(!sees_cell(&Vec::new(), Position { x: 0, y: 0 }));
}

#[test]
fn monster_strikes_a_neighbour_it_sees() {
    let map = open_grid(9, 9);
    for (px, py) in [(5, 4), (5, 5), (4, 5), (3, 3), (3, 4), (4, 3), (5, 3), (3, 5), (4, 4)] {
        let mut m = monster(7, 4, 4, &[(px, py)]);
        let action = monster_ai(&mut m, 0, Position { x: px, y: py }, &map);
        assert_eq!(action, MonsterAction::Attack(WantsToMelee { attacker: 7, target: 0 }));
        assert_eq!(m.position, Position { x: 4, y: 4 });
        assert!(!m.viewshed.dirty);
    }
}

#[test]
fn monster_pursues_what_it_sees_from_afar() {
    let map = open_grid(9, 9);
    for (px, py) in [(6, 4), (4, 6), (6, 5), (2, 2), (7, 7)] {
        let mut m = monster(7, 4, 4, &[(1, 1), (px, py)]);
        let action = monster_ai(&mut m, 0, Position { x: px, y: py }, &map);
        assert_eq!(action, MonsterAction::Pursue { from: 4 * 9 + 4, to: py * 9 + px });
        assert_eq!(m.position, Position { x: 4, y: 4 });
        assert!(!m.viewshed.dirty);
    }
}

#[test]
fn monster_waits_for_what_it_does_not_see() {
    let map = open_grid(9, 9);
    let mut hidden = monster(7, 4, 4, &[(1, 1)]);
    assert_eq!(monster_ai(&mut hidden, 0, Position { x: 5, y: 4 }, &map), MonsterAction::Idle);
    assert!(!hidden.viewshed.dirty);
    let mut shown = monster(7, 4, 4, &[(1, 1)]);
    shown.shown = true;
    assert_eq!(monster_ai(&mut shown, 0, Position { x: 5, y: 4 }, &map), MonsterAction::Idle);
    assert!(shown.viewshed.dirty);
    assert!(shown.shown);
    assert_eq!(shown.position, Position { x: 4, y: 4 });
}

#[test]
fn a_dirty_view_stays_dirty() {
    let map = open_grid(9, 9);
    let mut m = monster(7, 4, 4, &[(5, 4)]);
    m.viewshed.dirty = true;
    monster_ai(&mut m, 0, Position { x: 5, y: 4 }, &map);
    assert!(m.viewshed.dirty);
}

#[test]
fn monster_takes_the_second_cell_of_the_path() {
    let mut map = open_grid(9, 9);
    let mut m = monster(7, 2, 4, &[]);
    let steps = vec![4 * 9 + 2, 3 * 9 + 3, 3 * 9 + 4, 4 * 9 + 5];
    assert!(follow_path(&mut m, &mut map, true, &steps));
    assert_eq!(m.position, Position { x: 3, y: 3 });
    assert!(m.viewshed.dirty);
    for i in 0..81 {
        let wall = map.tiles[i] == Tile::Wall;
        assert_eq!(map.blocked[i], wall || i == 3 * 9 + 3);
    }
}

#[test]
fn the_cell_taken_is_blocked_for_the_next_monster() {
    let mut map = open_grid(9, 9);
    let mut first = monster(7, 2, 4, &[]);
    follow_path(&mut first, &mut map, true, &vec![38, 39, 40]);
    assert!(map.blocked[39]);
    assert!(!map.is_exit_valid(3, 4));
    assert!(!map.get_available_exits(40).iter().any(|e| e.0 == 39));
}

#[test]
fn no_path_no_move() {
    let mut map = open_grid(9, 9);
    let blocked = map.blocked.clone();
    for (success, steps) in [
        (false, vec![]),
        (false, vec![38, 39]),
        (true, vec![]),
        (true, vec![38]),
        (true, vec![38, 81]),
        (true, vec![38, usize::MAX]),
        // the monster stands on 38: no step leads to itself, two cells on, or the border
        (true, vec![38, 38]),
        (true, vec![38, 40]),
        (true, vec![38, 56]),
        (true, vec![39, 40]),
        (true, vec![37, 36]),
    ] {
        let mut m = monster(7, 2, 4, &[]);
        assert!(!follow_path(&mut m, &mut map, success, &steps));
        assert_eq!(m.position, Position { x: 2, y: 4 });
        assert!(!m.viewshed.dirty);
        assert_eq!(map.blocked, blocked);
    }
}

#[test]
fn wandering_needs_a_floor_cell() {
    let mut map = Grid::new(5, 5, 16);
    map.set_tile(2, 2, Tile::Floor);
    map.set_tile(3, 2, Tile::Floor);
    map.set_tile(0, 0, Tile::Floor);
    let mut pos = Position { x: 2, y: 2 };
    assert!(move_enemy(&map, &mut pos, (1, 0)));
    assert_eq!(pos, Position { x: 3, y: 2 });
    assert!(!move_enemy(&map, &mut pos, (1, 0)));
    assert_eq!(pos, Position { x: 3, y: 2 });
    assert!(!move_enemy(&map, &mut pos, (0, -1)));
    assert!(move_enemy(&map, &mut pos, (0, 0)));
    assert!(move_enemy(&map, &mut pos, (-1, 0)));
    assert_eq!(pos, Position { x: 2, y: 2 });
    let mut corner = Position { x: 0, y: 0 };
    assert!(!move_enemy(&map, &mut corner, (-1, 0)));
    assert!(!move_enemy(&map, &mut corner, (0, -1)));
    assert_eq!(corner, Position { x: 0, y: 0 });
    let mut edge = Position { x: 4, y: 4 };
    assert!(!move_enemy(&map, &mut edge, (1, 1)));
    assert_eq!(edge, Position { x: 4, y: 4 });
}

#[test]
fn a_cell_blocked_by_now_is_not_moved_to() {
    let mut map = open_grid(9, 9);
    let mut first = monster(7, 2, 4, &[]);
    let mut second = monster(8, 4, 4, &[]);
    assert!(follow_path(&mut first, &mut map, true, &vec![38, 39, 40]));
    assert!(!follow_path(&mut second, &mut map, true, &vec![40, 39, 38]));
    assert_eq!(second.position, Position { x: 4, y: 4 });
    assert!(!second.viewshed.dirty);
    assert!(follow_path(&mut second, &mut map, true, &vec![40, 48, 38]));
    assert_eq!(second.position, Position { x: 3, y: 5 });
}

#[test]
fn a_monster_off_the_grid_stays_where_it_is() {
    let mut map = open_grid(9, 9);
    let mut lost = monster(7, 9, 4, &[]);
    assert!(!follow_path(&mut lost, &mut map, true, &vec![38, 39]));
    assert_eq!(lost.position, Position { x: 9, y: 4 });
}
