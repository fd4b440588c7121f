//! The wall-growth pass: empty cells touching floor become walls.

use crate::grid::{Grid, EMPTY, FLOOR, WALL};
use vstd::prelude::*;

verus! {

/// The cell at `(x, y)` is within bounds and holds a floor.
pub open spec fn floor_at(g: Grid, x: int, y: int) -> bool {
    g.in_bounds(x, y) && g.cell(x, y) == FLOOR
}

/// One of the eight neighbors of `(x, y)` that lie within bounds holds a
/// floor.
pub open spec fn has_floor_neighbor(g: Grid, x: int, y: int) -> bool {
    ||| floor_at(g, x - 1, y - 1)
    ||| floor_at(g, x, y - 1)
    ||| floor_at(g, x + 1, y - 1)
    ||| floor_at(g, x - 1, y)
    ||| floor_at(g, x + 1, y)
    ||| floor_at(g, x - 1, y + 1)
    ||| floor_at(g, x, y + 1)
    ||| floor_at(g, x + 1, y + 1)
}

/// The tile at `(x, y)` after one wall-growth pass over `g`: an empty cell
/// turns into a wall exactly when it touches a floor, every other cell is
/// left as it is.
pub open spec fn grown_cell(g: Grid, x: int, y: int) -> u8 {
    if g.cell(x, y) == EMPTY && has_floor_neighbor(g, x, y) {
        WALL
    } else {
        g.cell(x, y)
    }
}

/// Whether the cell at `(x, y)` has a floor among its eight in-bounds
/// neighbors.
fn touches_floor(map: &Grid, x: usize, y: usize) -> (r: bool)
    requires
        map.wf(),
        map.in_bounds(x as int, y as int),
    ensures
        r == has_floor_neighbor(*map, x as int, y as int),
{
    if x > 0 && y > 0 && map.get(x - 1, y - 1) == FLOOR {
        return true;
    }
    if y > 0 && map.get(x, y - 1) == FLOOR {
        return true;
    }
    if x + 1 < map.width && y > 0 && map.get(x + 1, y - 1) == FLOOR {
        return true;
    }
    if x > 0 && map.get(x - 1, y) == FLOOR {
        return true;
    }
    if x + 1 < map.width && map.get(x + 1, y) == FLOOR {
        return true;
    }
    if x > 0 && y + 1 < map.height && map.get(x - 1, y + 1) == FLOOR {
        return true;
    }
    if y + 1 < map.height && map.get(x, y + 1) == FLOOR {
        return true;
    }
    if x + 1 < map.width && y + 1 < map.height && map.get(x + 1, y + 1) == FLOOR {
        return true;
    }
    false
}

/// The wall-growth pass: every empty cell adjacent to a floor becomes a
/// wall. The scan reads a snapshot of the grid and the collected edits are
/// applied afterward, so the result does not depend on scan order.
pub fn generate_walls(map: &mut Grid)
    requires
        old(map).wf(),
    ensures
        final(map).wf(),
        final(map).same_dims(*old(map)),
        forall|x: int, y: int|
            old(map).in_bounds(x, y) ==> final(map).cell(x, y) == grown_cell(*old(map), x, y),
{
    let ghost orig = *map;
    let mut walls_to_add: Vec<(usize, usize)> = Vec::new();
    let mut y: usize = 0;
    while y < map.height
        invariant
            map.wf(),
            *map == orig,
            y <= map.height,
            forall|k: int|
                0 <= k < walls_to_add@.len() ==> {
                    let e = #[trigger] walls_to_add@[k];
                    &&& orig.in_bounds(e.0 as int, e.1 as int)
                    &&& orig.cell(e.0 as int, e.1 as int) == EMPTY
                    &&& has_floor_neighbor(orig, e.0 as int, e.1 as int)
                },
            forall|px: int, py: int|
                0 <= px < orig.width && 0 <= py < y && orig.cell(px, py) == EMPTY
                    && has_floor_neighbor(orig, px, py) ==> #[trigger] walls_to_add@.contains(
                    (px as usize, py as usize),
                ),
        decreases map.height - y,
    {
        let mut x: usize = 0;
        while x < map.width
            invariant
                map.wf(),
                *map == orig,
                y < map.height,
                x <= map.width,
                forall|k: int|
                    0 <= k < walls_to_add@.len() ==> {
                        let e = #[trigger] walls_to_add@[k];
                        &&& orig.in_bounds(e.0 as int, e.1 as int)
                        &&& orig.cell(e.0 as int, e.1 as int) == EMPTY
                        &&& has_floor_neighbor(orig, e.0 as int, e.1 as int)
                    },
                forall|px: int, py: int|
                    0 <= px < orig.width && 0 <= py < y && orig.cell(px, py) == EMPTY
                        && has_floor_neighbor(orig, px, py) ==> #[trigger] walls_to_add@.contains(
                        (px as usize, py as usize),
                    ),
                forall|px: int|
                    0 <= px < x && orig.cell(px, y as int) == EMPTY && has_floor_neighbor(
                        orig,
                        px,
                        y as int,
                    ) ==> #[trigger] walls_to_add@.contains((px as usize, y)),
            decreases map.width - x,
        {
            if map.get(x, y) == EMPTY && touches_floor(map, x, y) {
                let ghost before = walls_to_add@;
                walls_to_add.push((x, y));
                proof {
                    assert forall|px: int, py: int|
                        0 <= px < orig.width && 0 <= py < y && orig.cell(px, py) == EMPTY
                            && has_floor_neighbor(orig, px, py) implies #[trigger] walls_to_add@.contains(
                        (px as usize, py as usize),
                    ) by {
                        assert(before.contains((px as usize, py as usize)));
                        let k = choose|k: int|
                            0 <= k < before.len() && before[k] == (px as usize, py as usize);
                        assert(walls_to_add@[k] == (px as usize, py as usize));
                    }
                    assert forall|px: int|
                        0 <= px <= x && orig.cell(px, y as int) == EMPTY && has_floor_neighbor(
                            orig,
                            px,
                            y as int,
                        ) implies #[trigger] walls_to_add@.contains((px as usize, y)) by {
                        if px == x {
                            assert(walls_to_add@[walls_to_add@.len() - 1] == (x, y));
                        } else {
                            assert(before.contains((px as usize, y)));
                            let k = choose|k: int|
                                0 <= k < before.len() && before[k] == (px as usize, y);
                            assert(walls_to_add@[k] == (px as usize, y));
                        }
                    }
                }
            }
            x = x + 1;
        }
        y = y + 1;
    }
    // apply all collected walls at once
    let ghost edits = walls_to_add@;
    let mut k: usize = 0;
    while k < walls_to_add.len()
        invariant
            map.wf(),
            map.same_dims(orig),
            walls_to_add@ == edits,
            k <= edits.len(),
            forall|e: int|
                0 <= e < edits.len() ==> {
                    let p = #[trigger] edits[e];
                    &&& orig.in_bounds(p.0 as int, p.1 as int)
                    &&& orig.cell(p.0 as int, p.1 as int) == EMPTY
                    &&& has_floor_neighbor(orig, p.0 as int, p.1 as int)
                },
            forall|px: int, py: int|
                0 <= px < orig.width && 0 <= py < orig.height && orig.cell(px, py) == EMPTY
                    && has_floor_neighbor(orig, px, py) ==> #[trigger] edits.contains(
                    (px as usize, py as usize),
                ),
            forall|px: int, py: int|
                orig.in_bounds(px, py) ==> #[trigger] map.cell(px, py) == (if exists|e: int|
                    0 <= e < k && edits[e] == (px as usize, py as usize) {
                    WALL
                } else {
                    orig.cell(px, py)
                }),
        decreases walls_to_add@.len() - k,
    {
        let (ex, ey) = walls_to_add[k];
        map.set(ex, ey, WALL);
        proof {
            assert forall|px: int, py: int| orig.in_bounds(px, py) implies #[trigger] map.cell(
                px,
                py,
            ) == (if exists|e: int| 0 <= e < k + 1 && edits[e] == (px as usize, py as usize) {
                WALL
            } else {
                orig.cell(px, py)
            }) by {
                if px == ex && py == ey {
                    assert(edits[k as int] == (px as usize, py as usize));
                } else {
                    if exists|e: int| 0 <= e < k && edits[e] == (px as usize, py as usize) {
                        let e = choose|e: int|
                            0 <= e < k && edits[e] == (px as usize, py as usize);
                        assert(0 <= e < k + 1 && edits[e] == (px as usize, py as usize));
                    } else {
                        assert forall|e: int|
                            0 <= e < k + 1 implies edits[e] != (px as usize, py as usize) by {
                            if e == k {
                                assert(edits[e] == (ex, ey));
                            }
                        }
                    }
                }
            }
        }
        k = k + 1;
    }
    proof {
        assert forall|x: int, y: int| orig.in_bounds(x, y) implies map.cell(x, y) == grown_cell(
            orig,
            x,
            y,
        ) by {
            if orig.cell(x, y) == EMPTY && has_floor_neighbor(orig, x, y) {
                assert(edits.contains((x as usize, y as usize)));
                let e = choose|e: int| 0 <= e < edits.len() && edits[e] == (x as usize, y as usize);
                assert(exists|e2: int|
                    0 <= e2 < edits.len() && edits[e2] == (x as usize, y as usize));
            } else {
                assert forall|e: int|
                    0 <= e < edits.len() implies edits[e] != (x as usize, y as usize) by {
                    if edits[e] == (x as usize, y as usize) {
                        assert(orig.cell(x, y) == EMPTY && has_floor_neighbor(orig, x, y));
                    }
                }
            }
        }
    }
}

/// Idempotence of wall growth: a second pass changes nothing. If `g1` is
/// the result of one pass over `g0`, then a pass over `g1` leaves every
/// cell of `g1` as it is, because freshly grown walls are not floors and
/// trigger no further growth.
pub proof fn lemma_wall_growth_idempotent(g0: Grid, g1: Grid, x: int, y: int)
    requires
        g0.wf(),
        g1.wf(),
        g1.same_dims(g0),
        forall|px: int, py: int|
            g0.in_bounds(px, py) ==> g1.cell(px, py) == grown_cell(g0, px, py),
        g0.in_bounds(x, y),
    ensures
        grown_cell(g1, x, y) == g1.cell(x, y),
{
    assert forall|px: int, py: int| g1.in_bounds(px, py) implies (floor_at(g1, px, py) <==> floor_at(
        g0,
        px,
        py,
    )) by {
        assert(g1.cell(px, py) == grown_cell(g0, px, py));
    }
    if g1.cell(x, y) == EMPTY {
        assert(g1.cell(x, y) == grown_cell(g0, x, y));
        assert(g0.cell(x, y) == EMPTY && !has_floor_neighbor(g0, x, y));
    }
}

} // verus!
