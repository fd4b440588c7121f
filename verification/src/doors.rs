//! The door pass: walls on the edge lines of recorded room bounding
//! boxes become doors.

use crate::grid::{Grid, DOOR, WALL};
use crate::rooms::{Room, RoomVec};
use vstd::prelude::*;

verus! {

/// The tile `(x, y)` lies exactly on one of the four edge lines of the
/// room's recorded bounding box: on the top or bottom line between the
/// left and right lines inclusive, or on the left or right line strictly
/// between the top and bottom lines.
pub open spec fn on_perimeter(room: Room, x: int, y: int) -> bool {
    let x1 = room.tile_top_left_corner.0 as int;
    let y1 = room.tile_top_left_corner.1 as int;
    let x2 = room.tile_bot_right_corner.0 as int;
    let y2 = room.tile_bot_right_corner.1 as int;
    ||| (x1 <= x <= x2 && (y == y1 || y == y2))
    ||| (y1 < y < y2 && (x == x1 || x == x2))
}

/// The tile `(x, y)` lies on the perimeter of at least one recorded room.
pub open spec fn on_any_perimeter(rooms: Seq<Room>, x: int, y: int) -> bool {
    exists|i: int| 0 <= i < rooms.len() && on_perimeter(#[trigger] rooms[i], x, y)
}

/// The tile at `(x, y)` after the door pass over `g`: a wall on a recorded
/// room's perimeter becomes a door, every other cell is left as it is.
pub open spec fn doored_cell(g: Grid, rooms: Seq<Room>, x: int, y: int) -> u8 {
    if g.cell(x, y) == WALL && on_any_perimeter(rooms, x, y) {
        DOOR
    } else {
        g.cell(x, y)
    }
}

/// Whether `(x, y)` lies on the perimeter of some recorded room.
fn perimeter_hit(room_vec: &RoomVec, x: usize, y: usize) -> (r: bool)
    ensures
        r == on_any_perimeter(room_vec.0@, x as int, y as int),
{
    let mut i: usize = 0;
    while i < room_vec.0.len()
        invariant
            i <= room_vec.0@.len(),
            forall|k: int| 0 <= k < i ==> !on_perimeter(#[trigger] room_vec.0@[k], x as int, y as int),
        decreases room_vec.0@.len() - i,
    {
        let room = &room_vec.0[i];
        let x1 = room.tile_top_left_corner.0;
        let y1 = room.tile_top_left_corner.1;
        let x2 = room.tile_bot_right_corner.0;
        let y2 = room.tile_bot_right_corner.1;
        let on_row = x1 <= x && x <= x2 && (y == y1 || y == y2);
        let on_col = y1 < y && y < y2 && (x == x1 || x == x2);
        if on_row || on_col {
            proof {
                assert(on_perimeter(room_vec.0@[i as int], x as int, y as int));
            }
            return true;
        }
        i = i + 1;
    }
    false
}

/// The door pass: every wall cell lying exactly on the edge lines of a
/// recorded room's bounding box is converted to a door. Runs strictly
/// after wall growth, acts only on cells that are walls by then, and is
/// idempotent (a door converted twice is still a door).
pub fn place_doors(map: &mut Grid, room_vec: &RoomVec)
    requires
        old(map).wf(),
    ensures
        final(map).wf(),
        final(map).same_dims(*old(map)),
        forall|x: int, y: int|
            old(map).in_bounds(x, y) ==> final(map).cell(x, y) == doored_cell(
                *old(map),
                room_vec.0@,
                x,
                y,
            ),
{
    let ghost orig = *map;
    let mut y: usize = 0;
    while y < map.height
        invariant
            map.wf(),
            map.same_dims(orig),
            y <= map.height,
            forall|px: int, py: int|
                orig.in_bounds(px, py) ==> #[trigger] map.cell(px, py) == (if py < y {
                    doored_cell(orig, room_vec.0@, px, py)
                } else {
                    orig.cell(px, py)
                }),
        decreases map.height - y,
    {
        let mut x: usize = 0;
        while x < map.width
            invariant
                map.wf(),
                map.same_dims(orig),
                y < map.height,
                x <= map.width,
                forall|px: int, py: int|
                    orig.in_bounds(px, py) && py != y ==> #[trigger] map.cell(px, py) == (if py
                        < y {
                        doored_cell(orig, room_vec.0@, px, py)
                    } else {
                        orig.cell(px, py)
                    }),
                forall|px: int|
                    0 <= px < orig.width ==> #[trigger] map.cell(px, y as int) == (if px < x {
                        doored_cell(orig, room_vec.0@, px, y as int)
                    } else {
                        orig.cell(px, y as int)
                    }),
            decreases map.width - x,
        {
            if map.get(x, y) == WALL && perimeter_hit(room_vec, x, y) {
                map.set(x, y, DOOR);
            }
            x = x + 1;
        }
        y = y + 1;
    }
}

/// Door validity: a cell that the door pass turned into a door was a wall
/// immediately before the pass and lies on the perimeter of at least one
/// recorded room.
pub proof fn lemma_door_validity(g0: Grid, g1: Grid, rooms: Seq<Room>, x: int, y: int)
    requires
        g0.wf(),
        g1.wf(),
        g1.same_dims(g0),
        forall|px: int, py: int|
            g0.in_bounds(px, py) ==> g1.cell(px, py) == doored_cell(g0, rooms, px, py),
        g0.in_bounds(x, y),
        g1.cell(x, y) == DOOR,
        g0.cell(x, y) != DOOR,
    ensures
        g0.cell(x, y) == WALL,
        on_any_perimeter(rooms, x, y),
{
    assert(g1.cell(x, y) == doored_cell(g0, rooms, x, y));
}

} // verus!
