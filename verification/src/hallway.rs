//! The corridor connector: rooms sorted by center and joined in order
//! by L-shaped runs of floor of fixed thickness.

use crate::bsp::BspTree;
use crate::grid::{Grid, FLOOR};
use crate::rect::Rect;
use crate::rng::LevelRng;
use vstd::prelude::*;

verus! {

/// Corridors are five tiles thick: two tiles on each side of the center
/// line.
pub const CORRIDOR_HALF: usize = 2;

pub open spec fn min_i(a: int, b: int) -> int {
    if a < b {
        a
    } else {
        b
    }
}

pub open spec fn max_i(a: int, b: int) -> int {
    if a < b {
        b
    } else {
        a
    }
}

pub open spec fn in_box(px: int, py: int, xa: int, xb: int, ya: int, yb: int) -> bool {
    xa <= px <= xb && ya <= py <= yb
}

/// A room rectangle whose coordinates leave space for the corridor
/// arithmetic within machine bounds.
pub open spec fn room_bounded(r: Rect) -> bool {
    r.right() + CORRIDOR_HALF <= usize::MAX && r.bottom() + CORRIDOR_HALF <= usize::MAX
}

/// The tile `(px, py)` belongs to the L-shaped corridor of thickness
/// `2 * CORRIDOR_HALF + 1` between the centers of `a` and `b`: a
/// horizontal run, a vertical run, and the explicitly filled corner where
/// they meet. `hf` selects horizontal-first routing (corner above the end
/// center) or vertical-first routing (corner below the start center).
pub open spec fn hallway_member(a: Rect, b: Rect, hf: bool, px: int, py: int) -> bool {
    let x1 = a.center_x();
    let y1 = a.center_y();
    let x2 = b.center_x();
    let y2 = b.center_y();
    let half = CORRIDOR_HALF as int;
    if hf {
        ||| in_box(px, py, min_i(x1, x2), max_i(x1, x2), y1 - half, y1 + half)
        ||| in_box(px, py, x2 - half, x2 + half, min_i(y1, y2), max_i(y1, y2))
        ||| in_box(px, py, x2 - half, x2 + half, y1 - half, y1 + half)
    } else {
        ||| in_box(px, py, x1 - half, x1 + half, min_i(y1, y2), max_i(y1, y2))
        ||| in_box(px, py, min_i(x1, x2), max_i(x1, x2), y2 - half, y2 + half)
        ||| in_box(px, py, x1 - half, x1 + half, y2 - half, y2 + half)
    }
}

/// `g1` is `g0` with exactly the corridor between `a` and `b` (with
/// routing `hf`), clamped to the grid, turned to floor.
pub open spec fn hallway_written(g0: Grid, g1: Grid, a: Rect, b: Rect, hf: bool) -> bool {
    forall|px: int, py: int|
        g0.in_bounds(px, py) ==> #[trigger] g1.cell(px, py) == (if hallway_member(a, b, hf, px, py) {
            FLOOR
        } else {
            g0.cell(px, py)
        })
}

/// Every in-bounds tile of the corridor between the centers of `a` and
/// `b`, for one of the two routings, holds a floor in `g`.
pub open spec fn corridor_covered(g: Grid, a: Rect, b: Rect, hf: bool) -> bool {
    forall|px: int, py: int|
        g.in_bounds(px, py) && hallway_member(a, b, hf, px, py) ==> #[trigger] g.cell(px, py)
            == FLOOR
}

/// A corridor of the configured thickness links the centers of `a` and
/// `b` in `g`: one of the two L-shaped routings is entirely floor where it
/// lies within the grid.
pub open spec fn corridor_linked(g: Grid, a: Rect, b: Rect) -> bool {
    exists|hf: bool| #[trigger] corridor_covered(g, a, b, hf)
}

/// Fill the in-bounds part of the inclusive box with `c`.
pub fn fill_rect(map: &mut Grid, x_min: usize, y_min: usize, x_max: usize, y_max: usize, c: u8)
    requires
        old(map).wf(),
    ensures
        final(map).wf(),
        final(map).same_dims(*old(map)),
        forall|px: int, py: int|
            old(map).in_bounds(px, py) ==> #[trigger] final(map).cell(px, py) == (if in_box(
                px,
                py,
                x_min as int,
                x_max as int,
                y_min as int,
                y_max as int,
            ) {
                c
            } else {
                old(map).cell(px, py)
            }),
{
    let ghost orig = *map;
    let mut y = y_min;
    while y <= y_max && y < map.height
        invariant
            map.wf(),
            map.same_dims(orig),
            y_min <= y,
            y == y_min || y <= y_max + 1,
            forall|px: int, py: int|
                orig.in_bounds(px, py) ==> #[trigger] map.cell(px, py) == (if in_box(
                    px,
                    py,
                    x_min as int,
                    x_max as int,
                    y_min as int,
                    y_max as int,
                ) && py < y {
                    c
                } else {
                    orig.cell(px, py)
                }),
        decreases y_max + 1 - y,
    {
        let mut x = x_min;
        while x <= x_max && x < map.width
            invariant
                map.wf(),
                map.same_dims(orig),
                x_min <= x,
                x == x_min || x <= x_max + 1,
                y < map.height,
                y_min <= y <= y_max,
                forall|px: int, py: int|
                    orig.in_bounds(px, py) && py != y ==> #[trigger] map.cell(px, py) == (if in_box(
                        px,
                        py,
                        x_min as int,
                        x_max as int,
                        y_min as int,
                        y_max as int,
                    ) && py < y {
                        c
                    } else {
                        orig.cell(px, py)
                    }),
                forall|px: int, py: int|
                    0 <= px < orig.width && py == y ==> #[trigger] map.cell(px, py) == (if x_min
                        <= px < x && x_min <= x_max {
                        c
                    } else {
                        orig.cell(px, py)
                    }),
            decreases x_max + 1 - x,
        {
            map.set(x, y, c);
            x = x + 1;
        }
        y = y + 1;
    }
}

/// Draw one L-shaped corridor of floor between the centers of `start` and
/// `end`, horizontal-first or vertical-first as the seeded generator
/// decides, with the corner tile block filled explicitly and every write
/// clamped to the grid bounds.
pub fn draw_hallway(start: &Rect, end: &Rect, map: &mut Grid, rng: &mut LevelRng)
    requires
        old(map).wf(),
        room_bounded(*start),
        room_bounded(*end),
    ensures
        final(map).wf(),
        final(map).same_dims(*old(map)),
        final(rng).seed@ == old(rng).seed@,
        final(rng).history@ == old(rng).history@.push((0int, 0int, 1int)),
        hallway_written(
            *old(map),
            *final(map),
            *start,
            *end,
            crate::rng::range_draw(old(rng).seed@, old(rng).history@, 0, 1) == 0,
        ),
        exists|hf: bool| #[trigger] hallway_written(*old(map), *final(map), *start, *end, hf),
        forall|px: int, py: int|
            old(map).in_bounds(px, py) && old(map).cell(px, py) == FLOOR
                ==> #[trigger] final(map).cell(px, py) == FLOOR,
        forall|px: int, py: int|
            old(map).in_bounds(px, py) && final(map).cell(px, py) != old(map).cell(px, py)
                ==> #[trigger] final(map).cell(px, py) == FLOOR,
{
    let ghost orig = *map;
    let (x1, y1) = start.center();
    let (x2, y2) = end.center();
    let half = CORRIDOR_HALF;
    let xlo = if x1 < x2 {
        x1
    } else {
        x2
    };
    let xhi = if x1 < x2 {
        x2
    } else {
        x1
    };
    let ylo = if y1 < y2 {
        y1
    } else {
        y2
    };
    let yhi = if y1 < y2 {
        y2
    } else {
        y1
    };
    let dir = rng.range_usize(0, 1);
    if dir == 0 {
        // horizontal first
        let run_y_lo = if y1 >= half {
            y1 - half
        } else {
            0
        };
        let leg_x_lo = if x2 >= half {
            x2 - half
        } else {
            0
        };
        fill_rect(map, xlo, run_y_lo, xhi, y1 + half, FLOOR);
        fill_rect(map, leg_x_lo, ylo, x2 + half, yhi, FLOOR);
        fill_rect(map, leg_x_lo, run_y_lo, x2 + half, y1 + half, FLOOR);
        proof {
            assert(hallway_written(orig, *map, *start, *end, true));
        }
    } else {
        // vertical first
        let run_x_lo = if x1 >= half {
            x1 - half
        } else {
            0
        };
        let leg_y_lo = if y2 >= half {
            y2 - half
        } else {
            0
        };
        fill_rect(map, run_x_lo, ylo, x1 + half, yhi, FLOOR);
        fill_rect(map, xlo, leg_y_lo, xhi, y2 + half, FLOOR);
        fill_rect(map, run_x_lo, leg_y_lo, x1 + half, y2 + half, FLOOR);
        proof {
            assert(hallway_written(orig, *map, *start, *end, false));
        }
    }
}

/// Rooms are ordered by center, column first and row second: a stable
/// total order that fixes the traversal order of the connector.
pub open spec fn center_le(a: Rect, b: Rect) -> bool {
    ||| a.center_x() < b.center_x()
    ||| (a.center_x() == b.center_x() && a.center_y() <= b.center_y())
}

/// The sequence is sorted by center order.
pub open spec fn sorted_by_center(s: Seq<Rect>) -> bool {
    forall|a: int, b: int| 0 <= a < b < s.len() ==> center_le(#[trigger] s[a], #[trigger] s[b])
}

/// Whether `a` comes strictly before `b` in center order.
fn center_lt_exec(a: &Rect, b: &Rect) -> (r: bool)
    requires
        room_bounded(*a),
        room_bounded(*b),
    ensures
        r == !center_le(*b, *a),
{
    let (ax, ay) = a.center();
    let (bx, by) = b.center();
    ax < bx || (ax == bx && ay < by)
}

/// Sort the rooms by center order with insertion sort. Every room of the
/// input appears in the output and the other way round.
pub fn sort_rooms(rs: &mut Vec<Rect>)
    requires
        forall|k: int| 0 <= k < old(rs)@.len() ==> room_bounded(#[trigger] old(rs)@[k]),
    ensures
        final(rs)@.len() == old(rs)@.len(),
        sorted_by_center(final(rs)@),
        forall|v: Rect| old(rs)@.contains(v) <==> final(rs)@.contains(v),
        forall|k: int| 0 <= k < final(rs)@.len() ==> room_bounded(#[trigger] final(rs)@[k]),
{
    let n = rs.len();
    let mut i: usize = 1;
    while i < n
        invariant
            1 <= i,
            n == rs@.len() == old(rs)@.len(),
            forall|k: int| 0 <= k < n ==> room_bounded(#[trigger] rs@[k]),
            forall|v: Rect| old(rs)@.contains(v) <==> rs@.contains(v),
            forall|a: int, b: int| 0 <= a < b < i ==> center_le(#[trigger] rs@[a], #[trigger] rs@[b]),
        decreases n - i,
    {
        let mut j: usize = i;
        while j > 0 && center_lt_exec(&rs[j], &rs[j - 1])
            invariant
                0 <= j <= i < n,
                n == rs@.len() == old(rs)@.len(),
                forall|k: int| 0 <= k < n ==> room_bounded(#[trigger] rs@[k]),
                forall|v: Rect| old(rs)@.contains(v) <==> rs@.contains(v),
                forall|a: int, b: int|
                    0 <= a < b <= i && a != j && b != j ==> center_le(
                        #[trigger] rs@[a],
                        #[trigger] rs@[b],
                    ),
                forall|b: int| j < b <= i ==> center_le(rs@[j as int], #[trigger] rs@[b]),
            decreases j,
        {
            let ghost before = rs@;
            let small = rs[j];
            let big = rs[j - 1];
            rs[j - 1] = small;
            rs[j] = big;
            proof {
                lemma_swap_preserves_contains(before, rs@, j - 1, j as int);
            }
            j = j - 1;
        }
        proof {
            assert forall|a: int, b: int| 0 <= a < b <= i implies center_le(
                #[trigger] rs@[a],
                #[trigger] rs@[b],
            ) by {
                if a == j as int {
                    if b != j + 1 {
                        assert(center_le(rs@[j + 1], rs@[b]));
                    }
                } else if b == j as int {
                    assert(center_le(rs@[a], rs@[j - 1]));
                }
            }
        }
        i = i + 1;
    }
}

/// Swapping two entries of a sequence does not change which values it
/// contains.
proof fn lemma_swap_preserves_contains(s1: Seq<Rect>, s2: Seq<Rect>, a: int, b: int)
    requires
        s1.len() == s2.len(),
        0 <= a < s1.len(),
        0 <= b < s1.len(),
        s2[a] == s1[b],
        s2[b] == s1[a],
        forall|k: int| 0 <= k < s1.len() && k != a && k != b ==> s1[k] == #[trigger] s2[k],
    ensures
        forall|v: Rect| s1.contains(v) <==> s2.contains(v),
{
    assert forall|v: Rect| s1.contains(v) implies s2.contains(v) by {
        let k = choose|k: int| 0 <= k < s1.len() && s1[k] == v;
        if k == a {
            assert(s2[b] == v);
        } else if k == b {
            assert(s2[a] == v);
        } else {
            assert(s2[k] == v);
        }
    }
    assert forall|v: Rect| s2.contains(v) implies s1.contains(v) by {
        let k = choose|k: int| 0 <= k < s2.len() && s2[k] == v;
        if k == a {
            assert(s1[b] == v);
        } else if k == b {
            assert(s1[a] == v);
        } else {
            assert(s1[k] == v);
        }
    }
}

/// The room rectangle recorded in some listed terminal leaf equals `r`.
pub open spec fn is_terminal_room(tree: BspTree, terminals: Seq<usize>, r: Rect) -> bool {
    exists|j: int|
        0 <= j < terminals.len() && tree.nodes@[#[trigger] terminals[j] as int].room == Some(r)
}

/// Connect the placed rooms: collect every listed terminal's room, sort
/// the rooms by center, and draw one corridor between each consecutive
/// pair, so the sorted rooms form one connected path through the grid.
/// Returns the sorted room rectangles.
pub fn connect_terminals(
    tree: &BspTree,
    terminals: &Vec<usize>,
    map: &mut Grid,
    rng: &mut LevelRng,
) -> (sorted_rooms: Vec<Rect>)
    requires
        old(map).wf(),
        forall|k: int| 0 <= k < terminals@.len() ==> #[trigger] terminals@[k] < tree.nodes@.len(),
        forall|k: int|
            0 <= k < terminals@.len() && tree.nodes@[#[trigger] terminals@[k] as int].room is Some
                ==> room_bounded(tree.nodes@[terminals@[k] as int].room->0),
    ensures
        final(map).wf(),
        final(map).same_dims(*old(map)),
        final(rng).seed@ == old(rng).seed@,
        sorted_by_center(sorted_rooms@),
        forall|k: int|
            0 <= k < sorted_rooms@.len() ==> is_terminal_room(
                *tree,
                terminals@,
                #[trigger] sorted_rooms@[k],
            ),
        forall|j: int|
            0 <= j < terminals@.len() && tree.nodes@[#[trigger] terminals@[j] as int].room is Some
                ==> sorted_rooms@.contains(tree.nodes@[terminals@[j] as int].room->0),
        forall|k: int|
            0 <= k && k + 1 < sorted_rooms@.len() ==> corridor_linked(
                *final(map),
                #[trigger] sorted_rooms@[k],
                sorted_rooms@[k + 1],
            ),
        sorted_rooms@.len() <= 1 ==> *final(map) == *old(map),
        final(rng).history@ == old(rng).history@ + Seq::new(
            (if sorted_rooms@.len() == 0 {
                0int
            } else {
                sorted_rooms@.len() - 1
            }) as nat,
            |i: int| (0int, 0int, 1int),
        ),
        forall|px: int, py: int|
            old(map).in_bounds(px, py) && old(map).cell(px, py) == FLOOR
                ==> #[trigger] final(map).cell(px, py) == FLOOR,
        forall|px: int, py: int|
            old(map).in_bounds(px, py) && final(map).cell(px, py) != old(map).cell(px, py)
                ==> #[trigger] final(map).cell(px, py) == FLOOR,
{
    let ghost orig = *map;
    let mut rooms: Vec<Rect> = Vec::new();
    let mut k: usize = 0;
    while k < terminals.len()
        invariant
            k <= terminals@.len(),
            forall|j: int| 0 <= j < terminals@.len() ==> #[trigger] terminals@[j] < tree.nodes@.len(),
            forall|j: int|
                0 <= j < terminals@.len() && tree.nodes@[#[trigger] terminals@[j] as int].room
                    is Some ==> room_bounded(tree.nodes@[terminals@[j] as int].room->0),
            forall|m: int|
                0 <= m < rooms@.len() ==> is_terminal_room(*tree, terminals@, #[trigger] rooms@[m])
                    && room_bounded(rooms@[m]),
            forall|j: int|
                0 <= j < k && tree.nodes@[#[trigger] terminals@[j] as int].room is Some
                    ==> rooms@.contains(tree.nodes@[terminals@[j] as int].room->0),
        decreases terminals@.len() - k,
    {
        let t = terminals[k];
        let ghost before = rooms@;
        match tree.nodes[t].room {
            Some(r) => {
                rooms.push(r);
                proof {
                    assert(tree.nodes@[terminals@[k as int] as int].room == Some(r));
                    assert(is_terminal_room(*tree, terminals@, r));
                    assert forall|j: int|
                        0 <= j < k + 1 && tree.nodes@[#[trigger] terminals@[j] as int].room
                            is Some implies rooms@.contains(
                        tree.nodes@[terminals@[j] as int].room->0,
                    ) by {
                        let v = tree.nodes@[terminals@[j] as int].room->0;
                        if j < k {
                            assert(before.contains(v));
                            let m = choose|m: int| 0 <= m < before.len() && before[m] == v;
                            assert(rooms@[m] == v);
                        } else {
                            assert(rooms@.last() == v);
                        }
                    }
                }
            },
            None => {},
        }
        k = k + 1;
    }

    sort_rooms(&mut rooms);
    proof {
        assert forall|m: int| 0 <= m < rooms@.len() implies is_terminal_room(
            *tree,
            terminals@,
            #[trigger] rooms@[m],
        ) && room_bounded(rooms@[m]) by {
            assert(rooms@.contains(rooms@[m]));
        }
    }

    let mut i: usize = 0;
    if rooms.len() > 0 {
        while i < rooms.len() - 1
            invariant
                map.wf(),
                map.same_dims(orig),
                rng.seed@ == old(rng).seed@,
                rng.history@ == old(rng).history@ + Seq::new(i as nat, |m: int| (0int, 0int, 1int)),
                i == 0 ==> *map == orig,
                rooms@.len() > 0,
                i <= rooms@.len() - 1,
                forall|m: int| 0 <= m < rooms@.len() ==> room_bounded(#[trigger] rooms@[m]),
                forall|k2: int|
                    0 <= k2 < i ==> corridor_linked(*map, #[trigger] rooms@[k2], rooms@[k2 + 1]),
                forall|px: int, py: int|
                    orig.in_bounds(px, py) && orig.cell(px, py) == FLOOR ==> #[trigger] map.cell(
                        px,
                        py,
                    ) == FLOOR,
                forall|px: int, py: int|
                    orig.in_bounds(px, py) && map.cell(px, py) != orig.cell(px, py)
                        ==> #[trigger] map.cell(px, py) == FLOOR,
            decreases rooms@.len() - i,
        {
            let ghost mid = *map;
            let a = rooms[i];
            let b = rooms[i + 1];
            draw_hallway(&a, &b, map, rng);
            proof {
                assert(rng.history@ =~= old(rng).history@ + Seq::new(
                    (i + 1) as nat,
                    |m: int| (0int, 0int, 1int),
                ));
                let hf = choose|hf: bool| hallway_written(mid, *map, a, b, hf);
                assert(corridor_covered(*map, a, b, hf));
                assert(corridor_linked(*map, a, b));
                assert forall|k2: int| 0 <= k2 < i implies corridor_linked(
                    *map,
                    #[trigger] rooms@[k2],
                    rooms@[k2 + 1],
                ) by {
                    let hf2 = choose|hf2: bool|
                        #[trigger] corridor_covered(mid, rooms@[k2], rooms@[k2 + 1], hf2);
                    assert forall|px: int, py: int|
                        map.in_bounds(px, py) && hallway_member(
                            rooms@[k2],
                            rooms@[k2 + 1],
                            hf2,
                            px,
                            py,
                        ) implies #[trigger] map.cell(px, py) == FLOOR by {
                        assert(mid.cell(px, py) == FLOOR);
                        assert(map.cell(px, py) == (if hallway_member(a, b, hf, px, py) {
                            FLOOR
                        } else {
                            mid.cell(px, py)
                        }));
                    }
                    assert(corridor_covered(*map, rooms@[k2], rooms@[k2 + 1], hf2));
                }
            }
            i = i + 1;
        }
    }
    rooms
}

} // verus!
