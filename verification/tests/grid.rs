use roguelike::map::{gap, Grid, Position, Rect, Tile, TileDisplay};

#[test]
fn new_grid_is_all_wall() {
    let map = Grid::new(4, 3, 16);
    assert_eq!(map.cols, 4);
    assert_eq!(map.rows, 3);
    assert_eq!(map.tile_size, 16);
    assert_eq!(map.tileset_grids, None);
    assert!(map.rooms.is_empty());
    assert_eq!(map.tiles.len(), 12);
    assert_eq!(map.revealed_tiles, vec![false; 12]);
    assert_eq!(map.visible_tiles, vec![false; 12]);
    assert_eq!(map.blocked, vec![false; 12]);
    assert_eq!(map.tile_content.len(), 12);
    assert!(map.tile_content.iter().all(|c| c.is_empty()));
    for y in 0..3 {
        for x in 0..4 {
            assert_eq!(map.get_tile(x, y), Tile::Wall);
        }
    }
}

#[test]
fn empty_grid_has_no_cells() {
    let map = Grid::new(0, 0, 16);
    assert!(map.tiles.is_empty());
    assert!(map.blocked.is_empty());
}

#[test]
fn sprite_sheet_slots() {
    assert_eq!(Tile::Floor.index_in_sprite_sheet(), 2);
    assert_eq!(Tile::Wall.index_in_sprite_sheet(), 826);
}

#[test]
fn tileset_slot_is_row_major() {
    let mut map = Grid::new(3, 3, 16);
    assert_eq!(map.get_tile_index_in_sprite_sheet(24, 5), 0);
    map.tileset_grids = Some((48, 22));
    assert_eq!(map.get_tile_index_in_sprite_sheet(24, 5), 5 * 48 + 24);
    assert_eq!(map.get_tile_index_in_sprite_sheet(0, 0), 0);
}

#[test]
fn rect_new_adds_extent_to_corner() {
    let r = Rect::new(3, 4, 6, 9);
    assert_eq!(r, Rect { x1: 3, y1: 4, x2: 9, y2: 13 });
}

#[test]
fn rect_center_rounds_down() {
    assert_eq!(Rect::new(1, 2, 6, 7).center(), (4, 5));
    assert_eq!(Rect { x1: 0, y1: 0, x2: 0, y2: 0 }.center(), (0, 0));
    assert_eq!(Rect { x1: 1, y1: 3, x2: 2, y2: 3 }.center(), (1, 3));
}

#[test]
fn rect_center_near_the_top_of_usize() {
    let r = Rect { x1: usize::MAX - 2, y1: usize::MAX - 1, x2: usize::MAX, y2: usize::MAX };
    assert_eq!(r.center(), (usize::MAX - 1, usize::MAX - 1));
}

#[test]
fn rects_that_touch_intersect() {
    let a = Rect::new(1, 1, 4, 4);
    let touching = Rect::new(5, 5, 2, 2);
    let apart = Rect::new(6, 1, 2, 2);
    let inside = Rect::new(2, 2, 1, 1);
    assert!(a.intersect(&touching));
    assert!(touching.intersect(&a));
    assert!(!a.intersect(&apart));
    assert!(!apart.intersect(&a));
    assert!(a.intersect(&inside));
    assert!(a.intersect(&a));
}

#[test]
fn set_tile_changes_one_cell() {
    let mut map = Grid::new(5, 4, 16);
    map.set_tile(2, 3, Tile::Floor);
    for y in 0..4 {
        for x in 0..5 {
            let expected = if (x, y) == (2, 3) { Tile::Floor } else { Tile::Wall };
            assert_eq!(map.get_tile(x, y), expected);
        }
    }
    assert_eq!(map.tiles[3 * 5 + 2], Tile::Floor);
}

#[test]
fn xy_to_index_is_row_major() {
    let map = Grid::new(80, 45, 16);
    assert_eq!(map.xy_to_index(0, 0), 0);
    assert_eq!(map.xy_to_index(79, 0), 79);
    assert_eq!(map.xy_to_index(0, 1), 80);
    assert_eq!(map.xy_to_index(7, 3), 247);
    assert_eq!(map.xy_to_index(79, 44), 80 * 45 - 1);
}

#[test]
fn set_rect_includes_both_edges() {
    let mut map = Grid::new(8, 8, 16);
    let rect = Rect { x1: 2, y1: 3, x2: 4, y2: 5 };
    map.set_rect(&rect, Tile::Floor);
    let mut floors = 0;
    for y in 0..8 {
        for x in 0..8 {
            let inside = (2..=4).contains(&x) && (3..=5).contains(&y);
            assert_eq!(map.get_tile(x, y) == Tile::Floor, inside);
            if inside {
                floors += 1;
            }
        }
    }
    assert_eq!(floors, 9);
}

#[test]
fn set_rect_with_no_cell_changes_nothing() {
    let mut map = Grid::new(4, 4, 16);
    map.set_rect(&Rect { x1: 3, y1: 0, x2: 2, y2: 90 }, Tile::Floor);
    map.set_rect(&Rect { x1: 0, y1: 3, x2: 90, y2: 2 }, Tile::Floor);
    assert!(map.tiles.iter().all(|t| *t == Tile::Wall));
}

#[test]
fn lines_run_either_way() {
    let mut a = Grid::new(7, 7, 16);
    let mut b = Grid::new(7, 7, 16);
    a.set_horizontal_line(1, 5, 2, Tile::Floor);
    b.set_horizontal_line(5, 1, 2, Tile::Floor);
    assert_eq!(a.tiles, b.tiles);
    for x in 0..7 {
        assert_eq!(a.get_tile(x, 2) == Tile::Floor, (1..=5).contains(&x));
        assert_eq!(a.get_tile(x, 3), Tile::Wall);
    }
    let mut c = Grid::new(7, 7, 16);
    let mut d = Grid::new(7, 7, 16);
    c.set_vertical_line(3, 0, 6, Tile::Floor);
    d.set_vertical_line(3, 6, 0, Tile::Floor);
    assert_eq!(c.tiles, d.tiles);
    for y in 0..7 {
        assert_eq!(c.get_tile(3, y), Tile::Floor);
        assert_eq!(c.get_tile(2, y), Tile::Wall);
    }
}

#[test]
fn line_of_one_cell() {
    let mut map = Grid::new(3, 3, 16);
    map.set_horizontal_line(1, 1, 1, Tile::Floor);
    assert_eq!(map.tiles.iter().filter(|t| **t == Tile::Floor).count(), 1);
    assert_eq!(map.get_tile(1, 1), Tile::Floor);
}

#[test]
fn populate_blocked_marks_the_walls() {
    let mut map = Grid::new(4, 4, 16);
    map.set_tile(1, 1, Tile::Floor);
    map.set_tile(2, 1, Tile::Floor);
    map.blocked[5] = true;
    map.populate_blocked();
    for i in 0..16 {
        assert_eq!(map.blocked[i], !(i == 5 || i == 6));
    }
}

#[test]
fn clear_map_resets_everything() {
    let mut map = Grid::new(4, 4, 16);
    map.set_tile(1, 1, Tile::Floor);
    map.rooms.push(Rect::new(1, 1, 1, 1));
    map.revealed_tiles[3] = true;
    map.visible_tiles[4] = true;
    map.blocked[5] = true;
    map.tile_content[6].push(9);
    map.tileset_grids = Some((48, 22));
    map.clear_map();
    assert_eq!(map.cols, 4);
    assert_eq!(map.rows, 4);
    assert_eq!(map.tileset_grids, None);
    assert!(map.rooms.is_empty());
    assert!(map.tiles.iter().all(|t| *t == Tile::Wall));
    assert_eq!(map.revealed_tiles, vec![false; 16]);
    assert_eq!(map.visible_tiles, vec![false; 16]);
    assert_eq!(map.blocked, vec![false; 16]);
    assert_eq!(map.tile_content.len(), 16);
    assert!(map.tile_content.iter().all(|c| c.is_empty()));
}

#[test]
fn clear_content_index_keeps_one_entry_per_cell() {
    let mut map = Grid::new(2, 2, 16);
    map.tile_content[0].push(1);
    map.tile_content[3].push(2);
    map.blocked[1] = true;
    map.clear_content_index();
    assert_eq!(map.tile_content, vec![Vec::<u64>::new(); 4]);
    assert_eq!(map.blocked, vec![false, true, false, false]);
}

#[test]
fn tile_display_follows_revealed_then_visible() {
    let mut map = Grid::new(3, 3, 16);
    assert_eq!(map.tile_display(1, 1), TileDisplay::Hidden);
    map.visible_tiles[4] = true;
    assert_eq!(map.tile_display(1, 1), TileDisplay::Hidden);
    map.revealed_tiles[4] = true;
    assert_eq!(map.tile_display(1, 1), TileDisplay::Lit);
    map.visible_tiles[4] = false;
    assert_eq!(map.tile_display(1, 1), TileDisplay::Remembered);
}

#[test]
fn gap_is_the_absolute_difference() {
    assert_eq!(gap(3, 8), 5);
    assert_eq!(gap(8, 3), 5);
    assert_eq!(gap(4, 4), 0);
    assert_eq!(gap(0, usize::MAX), usize::MAX);
}

#[test]
fn position_compares_by_fields() {
    assert_eq!(Position { x: 1, y: 2 }, Position { x: 1, y: 2 });
    assert_ne!(Position { x: 1, y: 2 }, Position { x: 2, y: 1 });
}

#[test]
fn default_grid_has_no_cells() {
    let map = Grid::default();
    assert_eq!((map.cols, map.rows, map.tile_size), (0, 0, 0));
    assert!(map.tiles.is_empty());
    assert!(map.rooms.is_empty());
    assert!(map.is_well_formed());
}

#[test]
fn well_formed_means_one_entry_per_cell() {
    let mut map = Grid::new(4, 3, 16);
    assert!(map.is_well_formed());
    map.blocked.pop();
    assert!(!map.is_well_formed());
    map.blocked.push(true);
    assert!(map.is_well_formed());
    map.tile_content.push(Vec::new());
    assert!(!map.is_well_formed());
    map.tile_content.pop();
    map.cols = 5;
    assert!(!map.is_well_formed());
    map.cols = usize::MAX;
    map.rows = 2;
    assert!(!map.is_well_formed());
    map.cols = 3;
    map.rows = 4;
    assert!(map.is_well_formed());
}
