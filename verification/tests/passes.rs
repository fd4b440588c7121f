use levelgen::grid::{Grid, DOOR, EMPTY, FLOOR, WALL, WINDOW};
use levelgen::rooms::{Room, RoomVec};
use levelgen::walls::generate_walls;
use levelgen::windows::WindowConfig;
use levelgen::{place_doors, place_windows, LevelRng};

fn grid_from(rows: &[&[u8]]) -> Grid {
    Grid {
        width: rows[0].len(),
        height: rows.len(),
        cells: rows.iter().map(|r| r.to_vec()).collect(),
    }
}

fn clone_grid(g: &Grid) -> Grid {
    Grid { width: g.width, height: g.height, cells: g.cells.clone() }
}

fn room_record(tlc: (usize, usize), brc: (usize, usize)) -> Room {
    Room::new(tlc, brc, vec![vec![FLOOR]])
}

#[test]
fn wall_growth_surrounds_a_single_floor() {
    let mut g = grid_from(&[b"...", b".#.", b"..."]);
    generate_walls(&mut g);
    assert_eq!(g.cells, vec![b"WWW".to_vec(), b"W#W".to_vec(), b"WWW".to_vec()]);
}

#[test]
fn wall_growth_ignores_detached_empties() {
    let mut g = grid_from(&[b"#....", b".....", b"....."]);
    generate_walls(&mut g);
    assert_eq!(
        g.cells,
        vec![b"#W...".to_vec(), b"WW...".to_vec(), b".....".to_vec()]
    );
}

#[test]
fn wall_growth_is_idempotent() {
    let mut g = grid_from(&[
        b".......",
        b"..###..",
        b"..#.#..",
        b"..###..",
        b".......",
    ]);
    generate_walls(&mut g);
    let once = clone_grid(&g);
    generate_walls(&mut g);
    assert_eq!(g.cells, once.cells);
}

#[test]
fn doors_cut_only_perimeter_walls() {
    // record box (2,1)-(5,4); walls on and off the perimeter
    let mut g = grid_from(&[
        b"W.......",
        b"..WW.W..",
        b".W###...",
        b"..###W..",
        b"..WWW...",
        b"....W...",
    ]);
    let rooms = RoomVec(vec![room_record((2, 1), (5, 4))]);
    place_doors(&mut g, &rooms);
    assert_eq!(
        g.cells,
        vec![
            b"W.......".to_vec(),   // (0,0) off the box: untouched
            b"..DD.D..".to_vec(),   // top edge row: walls at x in 2..=5 become doors
            b".W###...".to_vec(),   // (1,2) is not on the box's left line x=2: untouched
            b"..###D..".to_vec(),   // right edge column x=5
            b"..DDD...".to_vec(),   // bottom edge row y=4
            b"....W...".to_vec(),   // below the box: untouched
        ]
    );
}

#[test]
fn doors_touch_no_floor_cells() {
    let mut g = grid_from(&[b"###", b"###", b"###"]);
    let rooms = RoomVec(vec![room_record((0, 0), (2, 2))]);
    let before = clone_grid(&g);
    place_doors(&mut g, &rooms);
    assert_eq!(g.cells, before.cells);
}

#[test]
fn windows_convert_every_eligible_hull_wall_at_full_density() {
    // row 0 empty, row 1 walls (hull: empty above, floor below), row 2 floors
    let mut g = grid_from(&[b".....", b"WWWWW", b"#####"]);
    let cfg = WindowConfig { density: 100, min_per_room: 0, max_per_room: 100, avoid_doors_radius: 0 };
    let rooms = RoomVec(Vec::new());
    let mut rng = LevelRng::new(1);
    place_windows(&mut g, &rooms, &cfg, &mut rng);
    assert_eq!(g.cells[1], b"GGGGG".to_vec());
    assert_eq!(g.cells[0], b".....".to_vec());
    assert_eq!(g.cells[2], b"#####".to_vec());
}

#[test]
fn windows_respect_the_upper_clamp() {
    let mut g = grid_from(&[b".....", b"WWWWW", b"#####"]);
    let cfg = WindowConfig { density: 100, min_per_room: 0, max_per_room: 2, avoid_doors_radius: 0 };
    let rooms = RoomVec(Vec::new());
    let mut rng = LevelRng::new(1);
    place_windows(&mut g, &rooms, &cfg, &mut rng);
    let windows = g.cells[1].iter().filter(|&&c| c == WINDOW).count();
    let walls = g.cells[1].iter().filter(|&&c| c == WALL).count();
    assert_eq!(windows, 2);
    assert_eq!(walls, 3);
}

#[test]
fn windows_respect_the_lower_clamp() {
    let mut g = grid_from(&[b".....", b"WWWWW", b"#####"]);
    let cfg = WindowConfig { density: 0, min_per_room: 3, max_per_room: 100, avoid_doors_radius: 0 };
    let rooms = RoomVec(Vec::new());
    let mut rng = LevelRng::new(1);
    place_windows(&mut g, &rooms, &cfg, &mut rng);
    let windows = g.cells[1].iter().filter(|&&c| c == WINDOW).count();
    assert_eq!(windows, 3);
}

#[test]
fn windows_avoid_doors_by_manhattan_distance() {
    // a door sits in the middle of the hull row
    let mut g = grid_from(&[b".........", b"WWWWDWWWW", b"#########"]);
    let cfg =
        WindowConfig { density: 100, min_per_room: 0, max_per_room: 100, avoid_doors_radius: 2 };
    let rooms = RoomVec(Vec::new());
    let mut rng = LevelRng::new(1);
    place_windows(&mut g, &rooms, &cfg, &mut rng);
    // walls at distance 1 and 2 from the door stay walls
    assert_eq!(g.cells[1], b"GGWWDWWGG".to_vec());
}

#[test]
fn windows_skip_walls_without_floor_or_without_empty() {
    // row 1: wall between two walls, no floor anywhere -> not hull
    // row 4: wall between floors with no empty neighbor -> not hull
    let mut g = grid_from(&[
        b"...",
        b"WWW",
        b"...",
        b"###",
        b"WWW",
        b"###",
    ]);
    let cfg = WindowConfig { density: 100, min_per_room: 0, max_per_room: 100, avoid_doors_radius: 0 };
    let rooms = RoomVec(Vec::new());
    let mut rng = LevelRng::new(9);
    place_windows(&mut g, &rooms, &cfg, &mut rng);
    assert_eq!(g.cells[1], b"WWW".to_vec());
    assert_eq!(g.cells[4], b"WWW".to_vec());
}

#[test]
fn serialize_writes_rows_with_newlines() {
    let g = grid_from(&[b"#.", b"W#"]);
    let out = g.serialize();
    assert_eq!(out, b"#.\nW#\n".to_vec());
}

#[test]
fn empty_and_floor_and_door_bytes_are_distinct() {
    assert_ne!(EMPTY, FLOOR);
    assert_ne!(FLOOR, WALL);
    assert_ne!(WALL, DOOR);
    assert_ne!(DOOR, WINDOW);
}
