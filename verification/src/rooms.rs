//! Room templates, the store of the six authored layouts, placed-room
//! records, template stamping, and door-to-room assignment.

use crate::grid::Grid;
use vstd::prelude::*;

verus! {

/// An authored room template: a rectangular block of tile bytes, stamped
/// verbatim into the level grid.
pub struct RoomLayout {
    pub layout: Vec<Vec<u8>>,
    pub width: usize,
    pub height: usize,
}

impl RoomLayout {
    /// The stated dimensions match the buffer and are non-degenerate.
    pub open spec fn wf(self) -> bool {
        &&& self.layout@.len() == self.height
        &&& self.height >= 1
        &&& self.width >= 1
        &&& forall|j: int|
            0 <= j < self.height ==> (#[trigger] self.layout@[j])@.len() == self.width
    }

    /// Build a template from raw rows. Returns the template exactly when
    /// the rows form a non-empty rectangle: at least one row, a non-empty
    /// first row, and every row of the same length.
    pub fn from_rows(rows: Vec<Vec<u8>>) -> (r: Option<RoomLayout>)
        ensures
            match r {
                Some(t) => {
                    &&& t.wf()
                    &&& t.layout@ == rows@
                    &&& t.height == rows@.len()
                    &&& t.width == rows@[0]@.len()
                },
                None => rows@.len() == 0 || rows@[0]@.len() == 0 || exists|j: int|
                    0 <= j < rows@.len() && (#[trigger] rows@[j])@.len() != rows@[0]@.len(),
            },
    {
        if rows.len() == 0 {
            return None;
        }
        let width = rows[0].len();
        if width == 0 {
            return None;
        }
        let height = rows.len();
        let mut j: usize = 1;
        while j < height
            invariant
                1 <= j <= height,
                height == rows@.len(),
                width == rows@[0]@.len(),
                forall|k: int| 0 <= k < j ==> (#[trigger] rows@[k])@.len() == width,
            decreases height - j,
        {
            if rows[j].len() != width {
                return None;
            }
            j = j + 1;
        }
        Some(RoomLayout { layout: rows, width, height })
    }
}

/// The store of the six authored templates, loaded once and read-only
/// afterward.
pub struct RoomRes {
    pub room1: RoomLayout,
    pub room2: RoomLayout,
    pub room3: RoomLayout,
    pub room4: RoomLayout,
    pub room5: RoomLayout,
    pub room6: RoomLayout,
}

impl RoomRes {
    /// How many templates the store holds.
    pub open spec fn count(self) -> int {
        6
    }

    pub open spec fn wf(self) -> bool {
        &&& self.room1.wf()
        &&& self.room2.wf()
        &&& self.room3.wf()
        &&& self.room4.wf()
        &&& self.room5.wf()
        &&& self.room6.wf()
    }

    /// The template with the given one-based number.
    pub open spec fn spec_room(self, n: int) -> RoomLayout {
        if n == 1 {
            self.room1
        } else if n == 2 {
            self.room2
        } else if n == 3 {
            self.room3
        } else if n == 4 {
            self.room4
        } else if n == 5 {
            self.room5
        } else {
            self.room6
        }
    }

    /// Read access to the template with the given one-based number.
    pub fn room(&self, n: usize) -> (r: &RoomLayout)
        requires
            1 <= n <= self.count(),
        ensures
            *r == self.spec_room(n as int),
    {
        match n {
            1 => &self.room1,
            2 => &self.room2,
            3 => &self.room3,
            4 => &self.room4,
            5 => &self.room5,
            _ => &self.room6,
        }
    }
}

/// The record of one placed room: its tile-space bounding box (top-left
/// corner, and bottom-right corner one past the covered tiles), the door
/// cells later assigned to it, and a copy of the stamped layout.
pub struct Room {
    pub cleared: bool,
    pub doors: Vec<(usize, usize)>,
    pub numofenemies: usize,
    pub tile_top_left_corner: (usize, usize),
    pub tile_bot_right_corner: (usize, usize),
    pub layout: Vec<Vec<u8>>,
}

impl Room {
    pub fn new(
        tile_tlc: (usize, usize),
        tile_brc: (usize, usize),
        room_layout: Vec<Vec<u8>>,
    ) -> (r: Room)
        ensures
            r.cleared == false,
            r.doors@.len() == 0,
            r.numofenemies == 0,
            r.tile_top_left_corner == tile_tlc,
            r.tile_bot_right_corner == tile_brc,
            r.layout@ == room_layout@,
    {
        Room {
            cleared: false,
            doors: Vec::new(),
            numofenemies: 0,
            tile_top_left_corner: tile_tlc,
            tile_bot_right_corner: tile_brc,
            layout: room_layout,
        }
    }

    /// The tile `(x, y)` lies on or inside the recorded bounding box,
    /// edge lines included.
    pub open spec fn spec_bounds_check(self, x: int, y: int) -> bool {
        &&& self.tile_top_left_corner.0 <= x <= self.tile_bot_right_corner.0
        &&& self.tile_top_left_corner.1 <= y <= self.tile_bot_right_corner.1
    }

    pub fn bounds_check(&self, x: usize, y: usize) -> (r: bool)
        ensures
            r == self.spec_bounds_check(x as int, y as int),
    {
        self.tile_top_left_corner.0 <= x && x <= self.tile_bot_right_corner.0
            && self.tile_top_left_corner.1 <= y && y <= self.tile_bot_right_corner.1
    }

    /// The tile `(x, y)` lies strictly inside the recorded box, more than
    /// one tile from the left, right and bottom edges and more than two
    /// tiles from the top edge.
    pub open spec fn spec_within_bounds_check(self, x: int, y: int) -> bool {
        &&& self.tile_top_left_corner.0 + 1 < x
        &&& self.tile_top_left_corner.1 + 2 < y
        &&& x + 1 < self.tile_bot_right_corner.0
        &&& y + 1 < self.tile_bot_right_corner.1
    }

    pub fn within_bounds_check(&self, x: usize, y: usize) -> (r: bool)
        requires
            x + 1 <= usize::MAX,
            y + 1 <= usize::MAX,
            self.tile_top_left_corner.0 + 1 <= usize::MAX,
            self.tile_top_left_corner.1 + 2 <= usize::MAX,
        ensures
            r == self.spec_within_bounds_check(x as int, y as int),
    {
        self.tile_top_left_corner.0 + 1 < x && self.tile_top_left_corner.1 + 2 < y && x + 1
            < self.tile_bot_right_corner.0 && y + 1 < self.tile_bot_right_corner.1
    }
}

/// The flat list of all placed rooms, in placement order.
pub struct RoomVec(pub Vec<Room>);

/// Append a record for a room stamped with its top-left corner at
/// `tile_tlc` and its bottom-right corner (one past the covered tiles) at
/// `tile_brc`.
pub fn create_room(
    tile_tlc: (usize, usize),
    tile_brc: (usize, usize),
    rooms_vec: &mut RoomVec,
    room_layout: Vec<Vec<u8>>,
)
    ensures
        final(rooms_vec).0@.len() == old(rooms_vec).0@.len() + 1,
        forall|k: int|
            0 <= k < old(rooms_vec).0@.len() ==> final(rooms_vec).0@[k] == old(rooms_vec).0@[k],
        final(rooms_vec).0@.last().cleared == false,
        final(rooms_vec).0@.last().doors@.len() == 0,
        final(rooms_vec).0@.last().numofenemies == 0,
        final(rooms_vec).0@.last().tile_top_left_corner == tile_tlc,
        final(rooms_vec).0@.last().tile_bot_right_corner == tile_brc,
        final(rooms_vec).0@.last().layout@ == room_layout@,
{
    rooms_vec.0.push(Room::new(tile_tlc, tile_brc, room_layout));
}

/// The rows form a non-empty rectangle: at least one row, a non-empty
/// first row, and every row of the first row's length.
pub open spec fn rows_rectangular(rows: Seq<Vec<u8>>) -> bool {
    &&& rows.len() >= 1
    &&& rows[0]@.len() >= 1
    &&& forall|j: int| 0 <= j < rows.len() ==> (#[trigger] rows[j])@.len() == rows[0]@.len()
}

/// Build the template store from the six authored room layouts, given as
/// raw rows in room order. Returns the store exactly when there are six
/// layouts and each is a non-empty rectangle.
pub fn load_rooms(raw: Vec<Vec<Vec<u8>>>) -> (r: Option<RoomRes>)
    ensures
        match r {
            Some(res) => {
                &&& res.wf()
                &&& raw@.len() == 6
                &&& forall|n: int|
                    1 <= n <= 6 ==> (#[trigger] res.spec_room(n)).layout@ == raw@[n - 1]@
            },
            None => raw@.len() != 6 || exists|n: int|
                0 <= n < 6 && !rows_rectangular((#[trigger] raw@[n])@),
        },
{
    let mut rest = raw;
    if rest.len() != 6 {
        return None;
    }
    let rows6 = rest.pop().unwrap();
    let rows5 = rest.pop().unwrap();
    let rows4 = rest.pop().unwrap();
    let rows3 = rest.pop().unwrap();
    let rows2 = rest.pop().unwrap();
    let rows1 = rest.pop().unwrap();
    let room1 = RoomLayout::from_rows(rows1);
    let room2 = RoomLayout::from_rows(rows2);
    let room3 = RoomLayout::from_rows(rows3);
    let room4 = RoomLayout::from_rows(rows4);
    let room5 = RoomLayout::from_rows(rows5);
    let room6 = RoomLayout::from_rows(rows6);
    match (room1, room2, room3, room4, room5, room6) {
        (Some(r1), Some(r2), Some(r3), Some(r4), Some(r5), Some(r6)) => {
            let res = RoomRes {
                room1: r1,
                room2: r2,
                room3: r3,
                room4: r4,
                room5: r5,
                room6: r6,
            };
            Some(res)
        },
        _ => None,
    }
}

/// `k` is the first recorded room whose bounding box holds `(x, y)`.
pub open spec fn first_room_hit(rooms: Seq<Room>, x: int, y: int, k: int) -> bool {
    &&& 0 <= k < rooms.len()
    &&& rooms[k].spec_bounds_check(x, y)
    &&& forall|k2: int| 0 <= k2 < k ==> !(#[trigger] rooms[k2]).spec_bounds_check(x, y)
}

/// The index of the first recorded room whose bounding box holds the
/// tile, if any room does.
fn first_container(rooms: &RoomVec, x: usize, y: usize) -> (r: Option<usize>)
    ensures
        match r {
            Some(k) => first_room_hit(rooms.0@, x as int, y as int, k as int),
            None => forall|k: int|
                0 <= k < rooms.0@.len() ==> !(#[trigger] rooms.0@[k]).spec_bounds_check(
                    x as int,
                    y as int,
                ),
        },
{
    let mut k: usize = 0;
    while k < rooms.0.len()
        invariant
            k <= rooms.0@.len(),
            forall|k2: int|
                0 <= k2 < k ==> !(#[trigger] rooms.0@[k2]).spec_bounds_check(x as int, y as int),
        decreases rooms.0@.len() - k,
    {
        if rooms.0[k].bounds_check(x, y) {
            return Some(k);
        }
        k = k + 1;
    }
    None
}

/// Assign each listed door cell to the first recorded room whose bounding
/// box holds it, appending it to that room's door list; a door inside no
/// room is dropped. Bounding boxes, layouts and earlier door entries are
/// left untouched.
pub fn assign_doors(doors: &Vec<(usize, usize)>, rooms: &mut RoomVec)
    ensures
        final(rooms).0@.len() == old(rooms).0@.len(),
        forall|k: int|
            0 <= k < old(rooms).0@.len() ==> {
                let r0 = old(rooms).0@[k];
                let r1 = #[trigger] final(rooms).0@[k];
                &&& r1.cleared == r0.cleared
                &&& r1.numofenemies == r0.numofenemies
                &&& r1.tile_top_left_corner == r0.tile_top_left_corner
                &&& r1.tile_bot_right_corner == r0.tile_bot_right_corner
                &&& r1.layout == r0.layout
                &&& r1.doors@.len() >= r0.doors@.len()
                &&& forall|m: int| 0 <= m < r0.doors@.len() ==> r1.doors@[m] == r0.doors@[m]
                &&& forall|m: int|
                    r0.doors@.len() <= m < r1.doors@.len() ==> doors@.contains(
                        #[trigger] r1.doors@[m],
                    ) && first_room_hit(
                        old(rooms).0@,
                        r1.doors@[m].0 as int,
                        r1.doors@[m].1 as int,
                        k,
                    )
            },
        forall|j: int, k: int|
            0 <= j < doors@.len() && first_room_hit(
                old(rooms).0@,
                (#[trigger] doors@[j]).0 as int,
                doors@[j].1 as int,
                k,
            ) ==> (#[trigger] final(rooms).0@[k]).doors@.contains(doors@[j]),
{
    let ghost orig = rooms.0@;
    let mut j: usize = 0;
    while j < doors.len()
        invariant
            j <= doors@.len(),
            rooms.0@.len() == orig.len(),
            forall|k: int|
                0 <= k < orig.len() ==> {
                    let r0 = orig[k];
                    let r1 = #[trigger] rooms.0@[k];
                    &&& r1.cleared == r0.cleared
                    &&& r1.numofenemies == r0.numofenemies
                    &&& r1.tile_top_left_corner == r0.tile_top_left_corner
                    &&& r1.tile_bot_right_corner == r0.tile_bot_right_corner
                    &&& r1.layout == r0.layout
                    &&& r1.doors@.len() >= r0.doors@.len()
                    &&& forall|m: int| 0 <= m < r0.doors@.len() ==> r1.doors@[m] == r0.doors@[m]
                    &&& forall|m: int|
                        r0.doors@.len() <= m < r1.doors@.len() ==> doors@.contains(
                            #[trigger] r1.doors@[m],
                        ) && first_room_hit(
                            orig,
                            r1.doors@[m].0 as int,
                            r1.doors@[m].1 as int,
                            k,
                        )
                },
            forall|j2: int, k: int|
                0 <= j2 < j && first_room_hit(
                    orig,
                    (#[trigger] doors@[j2]).0 as int,
                    doors@[j2].1 as int,
                    k,
                ) ==> (#[trigger] rooms.0@[k]).doors@.contains(doors@[j2]),
        decreases doors@.len() - j,
    {
        let (dx, dy) = doors[j];
        proof {
            assert forall|k: int|
                0 <= k < orig.len() implies ((#[trigger] rooms.0@[k]).spec_bounds_check(
                dx as int,
                dy as int,
            ) == orig[k].spec_bounds_check(dx as int, dy as int)) by {}
        }
        match first_container(rooms, dx, dy) {
            Some(k) => {
                let ghost before = rooms.0@;
                proof {
                    assert(first_room_hit(orig, dx as int, dy as int, k as int)) by {
                        assert(orig[k as int].spec_bounds_check(dx as int, dy as int));
                        assert forall|k2: int|
                            0 <= k2 < k implies !(#[trigger] orig[k2]).spec_bounds_check(
                            dx as int,
                            dy as int,
                        ) by {
                            assert(!before[k2].spec_bounds_check(dx as int, dy as int));
                        }
                    }
                }
                rooms.0[k].doors.push((dx, dy));
                proof {
                    let ki = k as int;
                    assert(rooms.0@[ki].doors@ == before[ki].doors@.push((dx, dy)));
                    assert(doors@[j as int] == (dx, dy));
                    assert forall|k2: int|
                        0 <= k2 < orig.len() implies {
                        let r0 = orig[k2];
                        let r1 = #[trigger] rooms.0@[k2];
                        &&& r1.cleared == r0.cleared
                        &&& r1.numofenemies == r0.numofenemies
                        &&& r1.tile_top_left_corner == r0.tile_top_left_corner
                        &&& r1.tile_bot_right_corner == r0.tile_bot_right_corner
                        &&& r1.layout == r0.layout
                        &&& r1.doors@.len() >= r0.doors@.len()
                        &&& forall|m: int| 0 <= m < r0.doors@.len() ==> r1.doors@[m] == r0.doors@[m]
                        &&& forall|m: int|
                            r0.doors@.len() <= m < r1.doors@.len() ==> doors@.contains(
                                #[trigger] r1.doors@[m],
                            ) && first_room_hit(
                                orig,
                                r1.doors@[m].0 as int,
                                r1.doors@[m].1 as int,
                                k2,
                            )
                    } by {
                        if k2 != ki {
                            assert(rooms.0@[k2] == before[k2]);
                        } else {
                            assert forall|m: int|
                                orig[ki].doors@.len() <= m
                                    < rooms.0@[ki].doors@.len() implies doors@.contains(
                                #[trigger] rooms.0@[ki].doors@[m],
                            ) && first_room_hit(
                                orig,
                                rooms.0@[ki].doors@[m].0 as int,
                                rooms.0@[ki].doors@[m].1 as int,
                                ki,
                            ) by {
                                if m < before[ki].doors@.len() {
                                    assert(rooms.0@[ki].doors@[m] == before[ki].doors@[m]);
                                } else {
                                    assert(rooms.0@[ki].doors@[m] == (dx, dy));
                                    assert(doors@.contains(doors@[j as int]));
                                }
                            }
                        }
                    }
                    assert forall|j2: int, k2: int|
                        0 <= j2 < j + 1 && first_room_hit(
                            orig,
                            (#[trigger] doors@[j2]).0 as int,
                            doors@[j2].1 as int,
                            k2,
                        ) implies (#[trigger] rooms.0@[k2]).doors@.contains(doors@[j2]) by {
                        if j2 < j {
                            assert(before[k2].doors@.contains(doors@[j2]));
                            let m = choose|m: int|
                                0 <= m < before[k2].doors@.len() && before[k2].doors@[m]
                                    == doors@[j2];
                            assert(rooms.0@[k2].doors@[m] == doors@[j2]);
                        } else {
                            assert(k2 == ki) by {
                                if k2 < ki {
                                    assert(!orig[k2].spec_bounds_check(dx as int, dy as int));
                                } else if k2 > ki {
                                    assert(!orig[ki].spec_bounds_check(dx as int, dy as int));
                                }
                            }
                            assert(rooms.0@[k2].doors@[rooms.0@[k2].doors@.len() - 1]
                                == doors@[j2]);
                        }
                    }
                }
            },
            None => {
                proof {
                    assert forall|j2: int, k2: int|
                        0 <= j2 < j + 1 && first_room_hit(
                            orig,
                            (#[trigger] doors@[j2]).0 as int,
                            doors@[j2].1 as int,
                            k2,
                        ) implies (#[trigger] rooms.0@[k2]).doors@.contains(doors@[j2]) by {
                        if j2 == j {
                            assert(!rooms.0@[k2].spec_bounds_check(dx as int, dy as int));
                            assert(!orig[k2].spec_bounds_check(dx as int, dy as int));
                        }
                    }
                }
            },
        }
        j = j + 1;
    }
}

/// The tile the grid holds at `(px, py)` after a template has been stamped
/// with its top-left corner at `(tlx, tly)`: the template byte where the
/// template covers the tile, the original grid byte everywhere else.
pub open spec fn stamped_cell(
    g: Grid,
    room: RoomLayout,
    tlx: int,
    tly: int,
    px: int,
    py: int,
) -> u8 {
    if tlx <= px < tlx + room.width && tly <= py < tly + room.height {
        room.layout@[py - tly]@[px - tlx]
    } else {
        g.cell(px, py)
    }
}

/// The record's bounding box covers the tile (the bottom-right corner is
/// one past the covered tiles).
pub open spec fn record_covers(room: Room, x: int, y: int) -> bool {
    &&& room.tile_top_left_corner.0 <= x < room.tile_bot_right_corner.0
    &&& room.tile_top_left_corner.1 <= y < room.tile_bot_right_corner.1
}

/// The tile at `(x, y)` after the first `n` of the given records have
/// been stamped over `g0` in order, a later stamp overwriting an earlier
/// one where their boxes overlap.
pub open spec fn stamped_upto(g0: Grid, records: Seq<Room>, n: int, x: int, y: int) -> u8
    decreases n,
{
    if n <= 0 {
        g0.cell(x, y)
    } else if record_covers(records[n - 1], x, y) {
        records[n - 1].layout@[y - records[n - 1].tile_top_left_corner.1]@[x - records[n
            - 1].tile_top_left_corner.0]
    } else {
        stamped_upto(g0, records, n - 1, x, y)
    }
}

/// What the first `n` stamps leave behind depends only on the first `n`
/// records.
pub proof fn lemma_stamped_prefix(
    g0: Grid,
    r1: Seq<Room>,
    r2: Seq<Room>,
    n: int,
    x: int,
    y: int,
)
    requires
        n <= r1.len(),
        n <= r2.len(),
        forall|i: int| 0 <= i < n ==> r1[i] == r2[i],
    ensures
        stamped_upto(g0, r1, n, x, y) == stamped_upto(g0, r2, n, x, y),
    decreases n,
{
    if n > 0 {
        lemma_stamped_prefix(g0, r1, r2, n - 1, x, y);
    }
}

/// Stamp the template into the grid, top-left corner at
/// `(top_left_x, top_left_y)`, clipped to the grid bounds, and append a
/// record of its bounding box.
pub fn write_room(
    map: &mut Grid,
    room: &RoomLayout,
    top_left_x: usize,
    top_left_y: usize,
    room_vec: &mut RoomVec,
)
    requires
        old(map).wf(),
        room.wf(),
        top_left_x + room.width <= usize::MAX,
        top_left_y + room.height <= usize::MAX,
    ensures
        final(map).wf(),
        final(map).same_dims(*old(map)),
        forall|px: int, py: int|
            old(map).in_bounds(px, py) ==> final(map).cell(px, py) == stamped_cell(
                *old(map),
                *room,
                top_left_x as int,
                top_left_y as int,
                px,
                py,
            ),
        final(room_vec).0@.len() == old(room_vec).0@.len() + 1,
        forall|k: int|
            0 <= k < old(room_vec).0@.len() ==> final(room_vec).0@[k] == old(room_vec).0@[k],
        final(room_vec).0@.last().cleared == false,
        final(room_vec).0@.last().doors@.len() == 0,
        final(room_vec).0@.last().numofenemies == 0,
        final(room_vec).0@.last().tile_top_left_corner == (top_left_x, top_left_y),
        final(room_vec).0@.last().tile_bot_right_corner.0 == top_left_x + room.width,
        final(room_vec).0@.last().tile_bot_right_corner.1 == top_left_y + room.height,
        final(room_vec).0@.last().layout@.len() == room.layout@.len(),
        forall|j: int|
            0 <= j < room.layout@.len() ==> (#[trigger] final(room_vec).0@.last().layout@[j])@
                == room.layout@[j]@,
{
    let ghost orig = *map;
    let tile_brc = (top_left_x + room.width, top_left_y + room.height);
    let layout_copy = clone_rows(&room.layout);
    create_room((top_left_x, top_left_y), tile_brc, room_vec, layout_copy);

    let mut row: usize = 0;
    while row < room.height
        invariant
            map.wf(),
            map.same_dims(orig),
            room.wf(),
            row <= room.height,
            top_left_x + room.width <= usize::MAX,
            top_left_y + room.height <= usize::MAX,
            forall|px: int, py: int|
                orig.in_bounds(px, py) ==> map.cell(px, py) == (if py < top_left_y + row {
                    stamped_cell(orig, *room, top_left_x as int, top_left_y as int, px, py)
                } else {
                    orig.cell(px, py)
                }),
        decreases room.height - row,
    {
        let y = top_left_y + row;
        if y < map.height {
            proof {
                assert forall|px: int|
                    0 <= px < orig.width implies map.cell(px, y as int) == orig.cell(
                    px,
                    y as int,
                ) by {
                    assert(orig.in_bounds(px, y as int));
                }
            }
            let mut col: usize = 0;
            while col < room.width
                invariant
                    map.wf(),
                    map.same_dims(orig),
                    room.wf(),
                    row < room.height,
                    col <= room.width,
                    y == top_left_y + row,
                    y < map.height,
                    top_left_x + room.width <= usize::MAX,
                    forall|px: int, py: int|
                        orig.in_bounds(px, py) && py != y ==> map.cell(px, py) == (if py
                            < top_left_y + row {
                            stamped_cell(orig, *room, top_left_x as int, top_left_y as int, px, py)
                        } else {
                            orig.cell(px, py)
                        }),
                    forall|px: int|
                        0 <= px < orig.width ==> map.cell(px, y as int) == (if px < top_left_x
                            + col {
                            stamped_cell(
                                orig,
                                *room,
                                top_left_x as int,
                                top_left_y as int,
                                px,
                                y as int,
                            )
                        } else {
                            orig.cell(px, y as int)
                        }),
                decreases room.width - col,
            {
                let x = top_left_x + col;
                if x < map.width {
                    let c = room.layout[row][col];
                    map.set(x, y, c);
                }
                col = col + 1;
            }
        }
        row = row + 1;
    }
}

/// A deep copy of a template buffer.
fn clone_rows(rows: &Vec<Vec<u8>>) -> (r: Vec<Vec<u8>>)
    ensures
        r@.len() == rows@.len(),
        forall|j: int| 0 <= j < rows@.len() ==> (#[trigger] r@[j])@ == rows@[j]@,
{
    let mut out: Vec<Vec<u8>> = Vec::new();
    let mut j: usize = 0;
    while j < rows.len()
        invariant
            j <= rows@.len(),
            out@.len() == j,
            forall|k: int| 0 <= k < j ==> (#[trigger] out@[k])@ == rows@[k]@,
        decreases rows@.len() - j,
    {
        let mut line: Vec<u8> = Vec::new();
        let mut i: usize = 0;
        while i < rows[j].len()
            invariant
                j < rows@.len(),
                i <= rows@[j as int]@.len(),
                line@.len() == i,
                forall|k: int| 0 <= k < i ==> line@[k] == rows@[j as int]@[k],
            decreases rows@[j as int]@.len() - i,
        {
            line.push(rows[j][i]);
            i = i + 1;
        }
        proof {
            assert(line@ =~= rows@[j as int]@);
        }
        out.push(line);
        j = j + 1;
    }
    out
}

} // verus!
