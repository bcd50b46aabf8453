use bracket_pathfinding::prelude::{a_star_search, BaseMap, SmallVec};
use rand::rngs::StdRng;
use rand::SeedableRng;
use roguelike::generator::{
    draw_rooms, draws_in_grid, new_map_rooms_and_corridors, RoomDraw, MAX_ROOMS, MAX_SIZE,
    MIN_SIZE,
};
use roguelike::map::{Grid, Rect, Tile};

struct Walkable<'a>(&'a Grid);

impl BaseMap for Walkable<'_> {
    fn is_opaque(&self, idx: usize) -> bool {
        self.0.tiles[idx] == Tile::Wall
    }

    fn get_available_exits(&self, idx: usize) -> SmallVec<[(usize, f32); 10]> {
        let mut exits = SmallVec::new();
        for (to, cost) in self.0.get_available_exits(idx) {
            exits.push((to, cost as f32 / 100.0));
        }
        exits
    }

    fn get_pathing_distance(&self, idx1: usize, idx2: usize) -> f32 {
        (self.0.distance_squared(idx1, idx2) as f32).sqrt()
    }
}

fn draw(x: usize, y: usize, w: usize, h: usize, horizontal_first: bool) -> RoomDraw {
    RoomDraw { room: Rect::new(x, y, w, h), horizontal_first }
}

fn floor_cells(map: &Grid) -> Vec<(usize, usize)> {
    let mut cells = Vec::new();
    for y in 0..map.rows {
        for x in 0..map.cols {
            if map.get_tile(x, y) == Tile::Floor {
                cells.push((x, y));
            }
        }
    }
    cells
}

fn assert_border_is_wall(map: &Grid) {
    for x in 0..map.cols {
        assert_eq!(map.get_tile(x, 0), Tile::Wall);
        assert_eq!(map.get_tile(x, map.rows - 1), Tile::Wall);
    }
    for y in 0..map.rows {
        assert_eq!(map.get_tile(0, y), Tile::Wall);
        assert_eq!(map.get_tile(map.cols - 1, y), Tile::Wall);
    }
}

#[test]
fn constants_of_the_generator() {
    assert_eq!(MAX_ROOMS, 20);
    assert_eq!(MIN_SIZE, 6);
    assert_eq!(MAX_SIZE, 10);
}

#[test]
fn one_room_is_carved_with_both_edges() {
    let mut map = Grid::new(20, 15, 16);
    map.carve_rooms(&vec![draw(2, 3, 6, 7, true)]);
    assert_eq!(map.rooms, vec![Rect { x1: 2, y1: 3, x2: 8, y2: 10 }]);
    let floors = floor_cells(&map);
    assert_eq!(floors.len(), 7 * 8);
    for (x, y) in floors {
        assert!((2..=8).contains(&x) && (3..=10).contains(&y));
    }
}

#[test]
fn no_candidates_no_rooms() {
    let mut map = Grid::new(20, 15, 16);
    map.set_tile(5, 5, Tile::Floor);
    map.rooms.push(Rect::new(1, 1, 2, 2));
    map.carve_rooms(&Vec::new());
    assert!(map.rooms.is_empty());
    assert!(floor_cells(&map).is_empty());
}

#[test]
fn overlapping_candidate_is_skipped() {
    let mut map = Grid::new(40, 30, 16);
    let draws = vec![draw(2, 2, 6, 6, true), draw(8, 8, 6, 6, true), draw(20, 2, 6, 6, true)];
    map.carve_rooms(&draws);
    // the second candidate touches the first at (8, 8): it is dropped, and the third
    // is joined to the first
    assert_eq!(
        map.rooms,
        vec![Rect { x1: 2, y1: 2, x2: 8, y2: 8 }, Rect { x1: 20, y1: 2, x2: 26, y2: 8 }]
    );
    assert_eq!(map.get_tile(12, 12), Tile::Wall);
    for x in 5..=23 {
        assert_eq!(map.get_tile(x, 5), Tile::Floor);
    }
    assert_eq!(floor_cells(&map).len(), 49 + 49 + 11);
}

#[test]
fn corridor_horizontal_leg_first() {
    let mut map = Grid::new(40, 30, 16);
    map.carve_rooms(&vec![draw(2, 2, 6, 6, false), draw(20, 15, 6, 6, true)]);
    // centers (5, 5) and (23, 18): along row 5 first, then down column 23
    for x in 5..=23 {
        assert_eq!(map.get_tile(x, 5), Tile::Floor);
    }
    for y in 5..=18 {
        assert_eq!(map.get_tile(23, y), Tile::Floor);
    }
    assert_eq!(map.get_tile(5, 12), Tile::Wall);
    assert_eq!(map.get_tile(12, 18), Tile::Wall);
    // two rooms, fifteen cells of row 5 right of the first, nine cells of column 23
    // between row 5 and the second room
    assert_eq!(floor_cells(&map).len(), 49 + 49 + 15 + 9);
}

#[test]
fn corridor_vertical_leg_first() {
    let mut map = Grid::new(40, 30, 16);
    map.carve_rooms(&vec![draw(2, 2, 6, 6, true), draw(20, 15, 6, 6, false)]);
    // centers (5, 5) and (23, 18): down column 5 first, then along row 18
    for y in 5..=18 {
        assert_eq!(map.get_tile(5, y), Tile::Floor);
    }
    for x in 5..=23 {
        assert_eq!(map.get_tile(x, 18), Tile::Floor);
    }
    assert_eq!(map.get_tile(23, 12), Tile::Wall);
    assert_eq!(map.get_tile(12, 5), Tile::Wall);
    assert_eq!(floor_cells(&map).len(), 49 + 49 + 10 + 14);
}

#[test]
fn corridor_leads_back_to_the_previous_room() {
    let mut map = Grid::new(60, 20, 16);
    // rooms from right to left: the lines are dug whichever way the centers lie
    map.carve_rooms(&vec![draw(40, 2, 6, 6, true), draw(2, 10, 6, 6, true)]);
    for x in 5..=43 {
        assert_eq!(map.get_tile(x, 5), Tile::Floor);
    }
    for y in 5..=13 {
        assert_eq!(map.get_tile(5, y), Tile::Floor);
    }
}

#[test]
fn each_room_joins_the_one_accepted_before_it() {
    let mut map = Grid::new(60, 40, 16);
    let draws =
        vec![draw(2, 2, 6, 6, true), draw(30, 2, 6, 6, true), draw(30, 25, 6, 6, true)];
    map.carve_rooms(&draws);
    assert_eq!(map.rooms.len(), 3);
    // third to second: row 5 from 33 to 33, then column 33 from 5 to 28
    for y in 5..=28 {
        assert_eq!(map.get_tile(33, y), Tile::Floor);
    }
    // nothing leads from the third room to the first
    assert_eq!(map.get_tile(5, 20), Tile::Wall);
    assert_eq!(map.get_tile(15, 28), Tile::Wall);
}

#[test]
fn border_is_walled_whatever_was_dug() {
    let mut map = Grid::new(12, 12, 16);
    map.carve_rooms(&vec![RoomDraw {
        room: Rect { x1: 0, y1: 0, x2: 11, y2: 11 },
        horizontal_first: true,
    }]);
    assert_border_is_wall(&map);
    assert_eq!(floor_cells(&map).len(), 100);
    assert_eq!(map.rooms.len(), 1);
}

#[test]
fn carving_leaves_flags_and_index_alone() {
    let mut map = Grid::new(20, 15, 16);
    map.revealed_tiles[3] = true;
    map.visible_tiles[4] = true;
    map.blocked[5] = true;
    map.tile_content[6].push(7);
    map.tileset_grids = Some((48, 22));
    map.carve_rooms(&vec![draw(2, 3, 6, 7, true)]);
    assert!(map.revealed_tiles[3]);
    assert!(map.visible_tiles[4]);
    assert!(map.blocked[5]);
    assert_eq!(map.tile_content[6], vec![7]);
    assert_eq!(map.tileset_grids, Some((48, 22)));
    assert_eq!(map.tile_size, 16);
}

#[test]
fn carving_starts_from_walls() {
    let mut map = Grid::new(20, 15, 16);
    map.set_tile(15, 12, Tile::Floor);
    map.rooms.push(Rect::new(1, 1, 2, 2));
    map.carve_rooms(&vec![draw(2, 3, 6, 7, true)]);
    assert_eq!(map.get_tile(15, 12), Tile::Wall);
    assert_eq!(map.rooms.len(), 1);
}

#[test]
fn same_candidates_same_level() {
    let draws = vec![
        draw(2, 2, 6, 7, true),
        draw(30, 20, 8, 6, false),
        draw(4, 4, 9, 9, true),
        draw(50, 5, 7, 7, false),
    ];
    let mut a = Grid::new(80, 45, 16);
    let mut b = Grid::new(80, 45, 16);
    b.set_tile(40, 40, Tile::Floor);
    a.carve_rooms(&draws);
    b.carve_rooms(&draws);
    assert_eq!(a.tiles, b.tiles);
    assert_eq!(a.rooms, b.rooms);
    assert_eq!(a.rooms.len(), 3);
}

#[test]
fn place_room_reports_and_keeps_the_grid_on_overlap() {
    let mut map = Grid::new(40, 30, 16);
    assert!(map.place_room(Rect::new(2, 2, 6, 6), true));
    let tiles = map.tiles.clone();
    assert!(!map.place_room(Rect::new(5, 5, 6, 6), true));
    assert_eq!(map.tiles, tiles);
    assert_eq!(map.rooms.len(), 1);
    assert!(map.overlaps_a_room(&Rect::new(8, 8, 1, 1)));
    assert!(!map.overlaps_a_room(&Rect::new(9, 9, 1, 1)));
}

#[test]
fn wall_border_touches_only_the_border() {
    let mut map = Grid::new(6, 5, 16);
    map.fill(Tile::Floor);
    map.wall_border();
    for y in 0..5 {
        for x in 0..6 {
            let border = x == 0 || y == 0 || x == 5 || y == 4;
            assert_eq!(map.get_tile(x, y) == Tile::Wall, border);
        }
    }
    let mut none = Grid::new(0, 0, 16);
    none.wall_border();
    assert!(none.tiles.is_empty());
}

#[test]
fn drawn_candidates_keep_clear_of_the_border() {
    for seed in 0..50u64 {
        let mut rng = StdRng::seed_from_u64(seed);
        let draws = draw_rooms(80, 45, &mut rng);
        assert_eq!(draws.len(), 20);
        for d in draws {
            let w = d.room.x2 - d.room.x1;
            let h = d.room.y2 - d.room.y1;
            assert!((6..10).contains(&w));
            assert!((6..10).contains(&h));
            assert!(d.room.x1 >= 1 && d.room.y1 >= 1);
            assert!(d.room.x2 <= 78 && d.room.y2 <= 43);
        }
    }
}

#[test]
fn drawn_candidates_fit_the_smallest_grid() {
    for seed in 0..50u64 {
        let mut rng = StdRng::seed_from_u64(seed);
        for d in draw_rooms(12, 12, &mut rng) {
            assert!(d.room.x1 >= 1 && d.room.y1 >= 1);
            assert!(d.room.x2 <= 10 && d.room.y2 <= 10);
        }
    }
}

#[test]
fn draws_vary_with_the_seed() {
    let mut one = StdRng::seed_from_u64(1);
    let mut two = StdRng::seed_from_u64(2);
    assert_ne!(draw_rooms(80, 45, &mut one), draw_rooms(80, 45, &mut two));
}

#[test]
fn same_seed_same_level() {
    for seed in [0u64, 1, 7, 42, 12345] {
        let mut a = Grid::new(80, 45, 16);
        let mut b = Grid::new(80, 45, 16);
        new_map_rooms_and_corridors(&mut a, &mut StdRng::seed_from_u64(seed));
        new_map_rooms_and_corridors(&mut b, &mut StdRng::seed_from_u64(seed));
        assert_eq!(a.tiles, b.tiles);
        assert_eq!(a.rooms, b.rooms);
        assert!(!a.rooms.is_empty());
    }
}

#[test]
fn generated_border_is_wall() {
    for seed in 0..30u64 {
        let mut map = Grid::new(80, 45, 16);
        new_map_rooms_and_corridors(&mut map, &mut StdRng::seed_from_u64(seed));
        assert_border_is_wall(&map);
    }
}

#[test]
fn generated_rooms_do_not_overlap() {
    for seed in 0..30u64 {
        let mut map = Grid::new(80, 45, 16);
        new_map_rooms_and_corridors(&mut map, &mut StdRng::seed_from_u64(seed));
        assert!(map.rooms.len() <= 20);
        for i in 0..map.rooms.len() {
            for j in 0..map.rooms.len() {
                if i != j {
                    assert!(!map.rooms[i].intersect(&map.rooms[j]));
                }
            }
        }
    }
}

#[test]
fn generated_rooms_are_floor() {
    for seed in 0..10u64 {
        let mut map = Grid::new(80, 45, 16);
        new_map_rooms_and_corridors(&mut map, &mut StdRng::seed_from_u64(seed));
        for room in &map.rooms {
            for y in room.y1..=room.y2 {
                for x in room.x1..=room.x2 {
                    assert_eq!(map.get_tile(x, y), Tile::Floor);
                }
            }
        }
    }
}

fn reachable_from(map: &Grid, from: usize) -> Vec<bool> {
    let mut seen = vec![false; map.tiles.len()];
    let mut queue = std::collections::VecDeque::new();
    seen[from] = true;
    queue.push_back(from);
    while let Some(at) = queue.pop_front() {
        for (to, _) in map.get_available_exits(at) {
            if !seen[to] {
                seen[to] = true;
                queue.push_back(to);
            }
        }
    }
    seen
}

#[test]
fn generated_rooms_are_connected() {
    for seed in 0..40u64 {
        let mut map = Grid::new(80, 45, 16);
        new_map_rooms_and_corridors(&mut map, &mut StdRng::seed_from_u64(seed));
        map.populate_blocked();
        let (x0, y0) = map.rooms[0].center();
        let seen = reachable_from(&map, map.xy_to_index(x0, y0));
        for room in &map.rooms {
            let (x, y) = room.center();
            assert!(seen[map.xy_to_index(x, y)]);
        }
    }
}

#[test]
fn search_finds_the_way_to_the_next_room() {
    let mut map = Grid::new(40, 30, 16);
    map.carve_rooms(&vec![draw(2, 2, 6, 6, false), draw(20, 15, 6, 6, true)]);
    map.populate_blocked();
    let from = map.xy_to_index(5, 5);
    let to = map.xy_to_index(23, 18);
    let path = a_star_search(from, to, &Walkable(&map));
    assert!(path.success);
    assert_eq!(path.destination, to);
    assert_eq!(path.steps[0], from);
    assert_eq!(*path.steps.last().unwrap(), to);
    for pair in path.steps.windows(2) {
        assert!(map.get_available_exits(pair[0]).iter().any(|e| e.0 == pair[1]));
    }
}

#[test]
fn generation_replaces_an_earlier_level() {
    let mut map = Grid::new(80, 45, 16);
    new_map_rooms_and_corridors(&mut map, &mut StdRng::seed_from_u64(3));
    let mut fresh = Grid::new(80, 45, 16);
    new_map_rooms_and_corridors(&mut fresh, &mut StdRng::seed_from_u64(4));
    new_map_rooms_and_corridors(&mut map, &mut StdRng::seed_from_u64(4));
    assert_eq!(map.tiles, fresh.tiles);
    assert_eq!(map.rooms, fresh.rooms);
}

#[test]
fn candidates_are_checked_against_the_grid() {
    assert!(draws_in_grid(&Vec::new(), 0, 0));
    assert!(draws_in_grid(&vec![draw(2, 3, 6, 7, true)], 9, 11));
    assert!(!draws_in_grid(&vec![draw(2, 3, 6, 7, true)], 8, 11));
    assert!(!draws_in_grid(&vec![draw(2, 3, 6, 7, true)], 9, 10));
    let backwards = RoomDraw { room: Rect { x1: 5, y1: 1, x2: 4, y2: 2 }, horizontal_first: true };
    assert!(!draws_in_grid(&vec![draw(1, 1, 2, 2, true), backwards], 20, 20));
    for seed in 0..10u64 {
        let mut rng = StdRng::seed_from_u64(seed);
        assert!(draws_in_grid(&draw_rooms(12, 30, &mut rng), 12, 30));
    }
}

#[test]
fn the_first_candidate_is_always_kept() {
    for seed in 0..20u64 {
        let mut rng = StdRng::seed_from_u64(seed);
        let draws = draw_rooms(12, 12, &mut rng);
        let mut map = Grid::new(12, 12, 16);
        map.carve_rooms(&draws);
        // a grid this small has room for one room only
        assert_eq!(map.rooms, vec![draws[0].room]);
    }
}
