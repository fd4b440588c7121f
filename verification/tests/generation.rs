use levelgen::grid::{Grid, DOOR, FLOOR, WINDOW};
use levelgen::rooms::RoomRes;
use levelgen::windows::WindowConfig;
use levelgen::{build_full_level, load_rooms};

fn small_template() -> Vec<Vec<u8>> {
    vec![
        b"WWWWW".to_vec(),
        b"W###W".to_vec(),
        b"W###W".to_vec(),
        b"W###W".to_vec(),
        b"WWWWW".to_vec(),
    ]
}

fn templates() -> RoomRes {
    load_rooms(vec![
        small_template(),
        small_template(),
        small_template(),
        small_template(),
        small_template(),
        small_template(),
    ])
    .unwrap()
}

fn config() -> WindowConfig {
    WindowConfig { density: 80, min_per_room: 10, max_per_room: 5000, avoid_doors_radius: 2 }
}

fn scenario() -> levelgen::GeneratedLevel {
    build_full_level(&templates(), &config(), 42, 100, 100, 20, 8)
}

#[test]
fn scenario_grid_serializes_to_hundred_rows_of_hundred() {
    let level = scenario();
    let out = level.map.serialize();
    assert_eq!(out.len(), 101 * 100);
    let rows: Vec<&[u8]> = out.split(|&b| b == 10).collect();
    // the final newline leaves one empty trailing piece
    assert_eq!(rows.len(), 101);
    assert_eq!(rows[100], b"");
    for y in 0..100 {
        assert_eq!(rows[y].len(), 100);
    }
}

#[test]
fn scenario_root_splits_into_at_least_two_terminals() {
    let level = scenario();
    let root = &level.tree.nodes[0];
    assert!(root.left.is_some() && root.right.is_some());
    assert!(level.terminals.len() >= 2);
    for &t in &level.terminals {
        let node = &level.tree.nodes[t];
        assert!(node.left.is_none() && node.right.is_none());
    }
}

#[test]
fn scenario_each_terminal_has_a_room_or_is_undersized() {
    let level = scenario();
    for &t in &level.terminals {
        let node = &level.tree.nodes[t];
        match node.room {
            Some(r) => {
                // inside the leaf, with the one-tile margin (the test
                // template is small enough to fit every leaf)
                assert!(node.rect.x < r.x && node.rect.y < r.y);
                assert!(r.x + r.w < node.rect.x + node.rect.w);
                assert!(r.y + r.h < node.rect.y + node.rect.h);
            },
            None => {
                assert!(node.rect.w < 8 + 2 || node.rect.h < 8 + 2);
            },
        }
        // the minimum leaf size of this scenario leaves room for every
        // minimum room, so in fact no leaf goes without a room
        assert!(node.room.is_some());
    }
    assert!(!level.rooms.0.is_empty());
}

#[test]
fn scenario_is_deterministic_across_runs() {
    let a = scenario();
    let b = scenario();
    assert_eq!(a.map.serialize(), b.map.serialize());
    assert_eq!(a.terminals, b.terminals);
    assert_eq!(a.sorted_rooms.len(), b.sorted_rooms.len());
    for (ra, rb) in a.sorted_rooms.iter().zip(b.sorted_rooms.iter()) {
        assert_eq!((ra.x, ra.y, ra.w, ra.h), (rb.x, rb.y, rb.w, rb.h));
    }
    let ca: Vec<_> = a.rooms.0.iter().map(|r| (r.tile_top_left_corner, r.tile_bot_right_corner)).collect();
    let cb: Vec<_> = b.rooms.0.iter().map(|r| (r.tile_top_left_corner, r.tile_bot_right_corner)).collect();
    assert_eq!(ca, cb);
}

#[test]
fn scenario_seeds_differ() {
    let a = scenario();
    let b = build_full_level(&templates(), &config(), 43, 100, 100, 20, 8);
    assert_ne!(a.map.serialize(), b.map.serialize());
}

#[test]
fn scenario_every_door_lies_on_a_recorded_room_perimeter() {
    // the test templates stamp no door bytes, so every door in the final
    // grid was cut by the door pass
    let level = scenario();
    let mut found = 0;
    for y in 0..level.map.height {
        for x in 0..level.map.width {
            if level.map.cells[y][x] == DOOR {
                found += 1;
                let on_some = level.rooms.0.iter().any(|room| {
                    let (x1, y1) = room.tile_top_left_corner;
                    let (x2, y2) = room.tile_bot_right_corner;
                    (x1 <= x && x <= x2 && (y == y1 || y == y2))
                        || (y1 < y && y < y2 && (x == x1 || x == x2))
                });
                assert!(on_some, "door at ({x}, {y}) lies on no recorded room perimeter");
            }
        }
    }
    assert!(found > 0, "the scenario should cut at least one door");
}

#[test]
fn scenario_no_window_within_radius_of_a_door() {
    let level = scenario();
    let mut doors = Vec::new();
    let mut windows = Vec::new();
    for y in 0..level.map.height {
        for x in 0..level.map.width {
            match level.map.cells[y][x] {
                c if c == DOOR => doors.push((x as i64, y as i64)),
                c if c == WINDOW => windows.push((x as i64, y as i64)),
                _ => {},
            }
        }
    }
    assert!(!windows.is_empty(), "the scenario should place windows");
    for &(wx, wy) in &windows {
        for &(dx, dy) in &doors {
            let dist = (wx - dx).abs() + (wy - dy).abs();
            assert!(dist > 2, "window at ({wx}, {wy}) within radius of door at ({dx}, {dy})");
        }
    }
}

#[test]
fn scenario_sorted_room_centers_are_connected_by_floor() {
    let level = scenario();
    assert!(level.sorted_rooms.len() >= 2);
    // centers are ordered column first, row second
    for pair in level.sorted_rooms.windows(2) {
        let (a, b) = (&pair[0], &pair[1]);
        let ca = (a.x + a.w / 2, a.y + a.h / 2);
        let cb = (b.x + b.w / 2, b.y + b.h / 2);
        assert!(ca.0 < cb.0 || (ca.0 == cb.0 && ca.1 <= cb.1));
    }
    // one flood fill over floor cells reaches every sorted room center
    let g = &level.map;
    let start = {
        let r = &level.sorted_rooms[0];
        (r.x + r.w / 2, r.y + r.h / 2)
    };
    assert_eq!(g.cells[start.1][start.0], FLOOR);
    let mut seen = vec![vec![false; g.width]; g.height];
    let mut stack = vec![start];
    seen[start.1][start.0] = true;
    while let Some((x, y)) = stack.pop() {
        let mut neighbors = Vec::new();
        if x > 0 {
            neighbors.push((x - 1, y));
        }
        if x + 1 < g.width {
            neighbors.push((x + 1, y));
        }
        if y > 0 {
            neighbors.push((x, y - 1));
        }
        if y + 1 < g.height {
            neighbors.push((x, y + 1));
        }
        for (nx, ny) in neighbors {
            if !seen[ny][nx] && g.cells[ny][nx] == FLOOR {
                seen[ny][nx] = true;
                stack.push((nx, ny));
            }
        }
    }
    for r in &level.sorted_rooms {
        let c = (r.x + r.w / 2, r.y + r.h / 2);
        assert!(seen[c.1][c.0], "room center ({}, {}) is unreachable", c.0, c.1);
    }
}
