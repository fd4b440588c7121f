use levelgen::grid::{Grid, EMPTY, FLOOR, WALL};
use levelgen::rooms::{Room, RoomLayout, RoomVec};
use levelgen::{
    assign_doors, draw_hallway, generate_tables_from_grid, load_rooms, write_room, LevelRng, Rect,
};

#[test]
fn rect_center_truncates_toward_top_left() {
    let r = Rect::new(2, 3, 5, 4);
    assert_eq!(r.center(), (4, 5));
    let r = Rect::new(0, 0, 1, 1);
    assert_eq!(r.center(), (0, 0));
}

#[test]
fn from_rows_accepts_a_rectangle() {
    let t = RoomLayout::from_rows(vec![b"WWW".to_vec(), b"W#W".to_vec()]).unwrap();
    assert_eq!(t.width, 3);
    assert_eq!(t.height, 2);
    assert_eq!(t.layout, vec![b"WWW".to_vec(), b"W#W".to_vec()]);
}

#[test]
fn from_rows_rejects_ragged_or_empty_rows() {
    assert!(RoomLayout::from_rows(Vec::new()).is_none());
    assert!(RoomLayout::from_rows(vec![Vec::new()]).is_none());
    assert!(RoomLayout::from_rows(vec![b"WW".to_vec(), b"W".to_vec()]).is_none());
}

#[test]
fn load_rooms_needs_exactly_six_valid_layouts() {
    let row = || vec![b"##".to_vec()];
    assert!(load_rooms(vec![row(), row(), row(), row(), row(), row()]).is_some());
    assert!(load_rooms(vec![row(), row(), row(), row(), row()]).is_none());
    let mut bad = vec![row(), row(), row(), row(), row()];
    bad.push(vec![b"##".to_vec(), b"#".to_vec()]);
    assert!(load_rooms(bad).is_none());
}

#[test]
fn load_rooms_keeps_the_layouts_in_order() {
    let mk = |c: u8| vec![vec![c, c], vec![c, c]];
    let res = load_rooms(vec![mk(b'1'), mk(b'2'), mk(b'3'), mk(b'4'), mk(b'5'), mk(b'6')]).unwrap();
    assert_eq!(res.room(1).layout[0][0], b'1');
    assert_eq!(res.room(3).layout[0][0], b'3');
    assert_eq!(res.room(6).layout[0][0], b'6');
}

#[test]
fn seeded_draws_are_deterministic_and_in_range() {
    let mut a = LevelRng::new(5);
    let mut b = LevelRng::new(5);
    for _ in 0..20 {
        let va = a.range_usize(10, 1_000_000);
        let vb = b.range_usize(10, 1_000_000);
        assert_eq!(va, vb);
        assert!((10..=1_000_000).contains(&va));
    }
    let mut c = LevelRng::new(6);
    let first_a = LevelRng::new(5).range_usize(10, 1_000_000);
    assert_ne!(first_a, c.range_usize(10, 1_000_000));
    assert_eq!(LevelRng::new(5).range_usize(7, 7), 7);
}

#[test]
fn seeded_shuffle_permutes_and_is_deterministic() {
    let original: Vec<(usize, usize)> = (0..50).map(|i| (i, i * 2)).collect();
    let mut x = original.clone();
    let mut y = original.clone();
    LevelRng::new(11).shuffle_pairs(&mut x);
    LevelRng::new(11).shuffle_pairs(&mut y);
    assert_eq!(x, y);
    assert_ne!(x, original, "a 50-element shuffle leaving the order intact is wrong");
    let mut sorted = x.clone();
    sorted.sort();
    assert_eq!(sorted, original);
}

#[test]
fn write_room_stamps_and_records() {
    let mut g = Grid::new(6, 5, EMPTY);
    let t = RoomLayout::from_rows(vec![b"WWW".to_vec(), b"W#W".to_vec()]).unwrap();
    let mut rooms = RoomVec(Vec::new());
    write_room(&mut g, &t, 1, 2, &mut rooms);
    assert_eq!(
        g.cells,
        vec![
            b"......".to_vec(),
            b"......".to_vec(),
            b".WWW..".to_vec(),
            b".W#W..".to_vec(),
            b"......".to_vec(),
        ]
    );
    assert_eq!(rooms.0.len(), 1);
    assert_eq!(rooms.0[0].tile_top_left_corner, (1, 2));
    assert_eq!(rooms.0[0].tile_bot_right_corner, (4, 4));
    assert_eq!(rooms.0[0].layout, t.layout);
}

#[test]
fn write_room_clips_at_the_grid_edge() {
    let mut g = Grid::new(3, 3, EMPTY);
    let t = RoomLayout::from_rows(vec![b"##".to_vec(), b"##".to_vec()]).unwrap();
    let mut rooms = RoomVec(Vec::new());
    write_room(&mut g, &t, 2, 2, &mut rooms);
    assert_eq!(g.cells, vec![b"...".to_vec(), b"...".to_vec(), b"..#".to_vec()]);
}

#[test]
fn bounds_checks_use_the_recorded_corners() {
    let room = Room::new((2, 3), (8, 9), vec![vec![FLOOR]]);
    assert!(room.bounds_check(2, 3));
    assert!(room.bounds_check(8, 9));
    assert!(!room.bounds_check(1, 3));
    assert!(!room.bounds_check(9, 9));
    assert!(room.within_bounds_check(4, 6));
    assert!(!room.within_bounds_check(3, 6));
    assert!(!room.within_bounds_check(4, 5));
    assert!(!room.within_bounds_check(7, 6));
    assert!(!room.within_bounds_check(4, 8));
}

#[test]
fn doors_go_to_the_first_containing_room() {
    let mut rooms = RoomVec(vec![
        Room::new((0, 0), (4, 4), vec![vec![FLOOR]]),
        Room::new((3, 0), (8, 4), vec![vec![FLOOR]]),
    ]);
    let doors = vec![(1, 1), (4, 2), (7, 1), (20, 20)];
    assign_doors(&doors, &mut rooms);
    assert_eq!(rooms.0[0].doors, vec![(1, 1), (4, 2)]);
    assert_eq!(rooms.0[1].doors, vec![(7, 1)]);
}

#[test]
fn hallway_floors_both_centers() {
    let mut g = Grid::new(30, 30, EMPTY);
    let a = Rect::new(2, 2, 4, 4);
    let b = Rect::new(20, 18, 6, 6);
    let mut rng = LevelRng::new(3);
    draw_hallway(&a, &b, &mut g, &mut rng);
    assert_eq!(g.cells[4][4], FLOOR);
    assert_eq!(g.cells[21][23], FLOOR);
    // the corridor is five tiles thick around the horizontal run
    let run_floor = (2..=6).all(|y| g.cells[y][4] == FLOOR) || (19..=23).all(
        |y| g.cells[y][23] == FLOOR,
    );
    assert!(run_floor);
}

#[test]
fn tables_come_from_floor_cells_and_respect_the_cap() {
    let grid = vec![b"#.#".to_vec(), b".#.".to_vec(), b"##W".to_vec()];
    let t = generate_tables_from_grid(&grid, 3, Some(9));
    assert_eq!(t.len(), 3);
    for &(x, y) in &t {
        assert_eq!(grid[y][x], FLOOR);
    }
    let mut unique = t.clone();
    unique.sort();
    unique.dedup();
    assert_eq!(unique.len(), t.len());
}

#[test]
fn tables_take_every_floor_cell_when_below_the_cap() {
    let grid = vec![b"#.#".to_vec(), b".#.".to_vec()];
    let mut t = generate_tables_from_grid(&grid, 10, Some(4));
    t.sort();
    assert_eq!(t, vec![(0, 0), (1, 1), (2, 0)]);
}

#[test]
fn tables_are_deterministic_for_a_seed() {
    let grid = vec![b"#####".to_vec(), b"#####".to_vec(), b"#####".to_vec()];
    let a = generate_tables_from_grid(&grid, 6, Some(123));
    let b = generate_tables_from_grid(&grid, 6, Some(123));
    assert_eq!(a, b);
    let c = generate_tables_from_grid(&grid, 6, Some(124));
    assert_ne!(a, c);
}

#[test]
fn tables_without_a_seed_still_pick_floors() {
    let grid = vec![b"###".to_vec(), b"#W#".to_vec()];
    let t = generate_tables_from_grid(&grid, 2, None);
    assert_eq!(t.len(), 2);
    for &(x, y) in &t {
        assert_eq!(grid[y][x], FLOOR);
    }
}

#[test]
fn tables_without_a_seed_are_shuffled() {
    // fifty floor cells: an unshuffled result would come back in scan
    // order, which the thread-local generator leaves intact with
    // vanishing probability
    let grid: Vec<Vec<u8>> = (0..5).map(|_| vec![FLOOR; 10]).collect();
    let t = generate_tables_from_grid(&grid, 50, None);
    assert_eq!(t.len(), 50);
    let scan_order: Vec<(usize, usize)> =
        (0..5).flat_map(|y| (0..10).map(move |x| (x, y))).collect();
    assert_ne!(t, scan_order);
}

#[test]
fn walls_are_not_tables() {
    let grid = vec![b"WWW".to_vec()];
    let t = generate_tables_from_grid(&grid, 5, Some(1));
    assert!(t.is_empty());
}
