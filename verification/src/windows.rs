//! The window pass: a density-controlled selection of hull walls, kept
//! clear of doors, becomes windows.

use crate::grid::{Grid, DOOR, EMPTY, FLOOR, WALL, WINDOW};
use crate::rng::LevelRng;
use crate::rooms::RoomVec;
use vstd::prelude::*;
use vstd::seq_lib::group_seq_properties;

verus! {

/// Tunables of the window pass. The density is a percentage of the
/// eligible hull walls; the two clamps bound the number of windows placed
/// by one pass over the whole grid (they are applied globally over all
/// candidates, not per individual room).
pub struct WindowConfig {
    /// Percentage (0 to 100) of eligible wall tiles to convert to windows.
    pub density: u32,
    /// Lower clamp on the number of windows placed by one pass.
    pub min_per_room: usize,
    /// Upper clamp on the number of windows placed by one pass.
    pub max_per_room: usize,
    /// Manhattan distance around doors where no window is placed.
    pub avoid_doors_radius: usize,
}

impl Default for WindowConfig {
    fn default() -> (c: WindowConfig)
        ensures
            c.density == 80,
            c.min_per_room == 10,
            c.max_per_room == 5000,
            c.avoid_doors_radius == 2,
    {
        WindowConfig { density: 80, min_per_room: 10, max_per_room: 5000, avoid_doors_radius: 2 }
    }
}

/// The in-bounds cell at `(x, y)` holds `c`.
pub open spec fn cell_is(g: Grid, x: int, y: int, c: u8) -> bool {
    g.in_bounds(x, y) && g.cell(x, y) == c
}

/// A hull wall: a wall with, among its four edge neighbors, at least one
/// floor cell and at least one empty cell, so it separates playable space
/// from the open exterior.
pub open spec fn hull_wall(g: Grid, x: int, y: int) -> bool {
    &&& cell_is(g, x, y, WALL)
    &&& (cell_is(g, x + 1, y, FLOOR) || cell_is(g, x - 1, y, FLOOR) || cell_is(g, x, y + 1, FLOOR)
        || cell_is(g, x, y - 1, FLOOR))
    &&& (cell_is(g, x + 1, y, EMPTY) || cell_is(g, x - 1, y, EMPTY) || cell_is(g, x, y + 1, EMPTY)
        || cell_is(g, x, y - 1, EMPTY))
}

pub open spec fn manhattan(x1: int, y1: int, x2: int, y2: int) -> int {
    (if x1 < x2 {
        x2 - x1
    } else {
        x1 - x2
    }) + (if y1 < y2 {
        y2 - y1
    } else {
        y1 - y2
    })
}

/// Some door cell of `g` lies within Manhattan distance `radius` of
/// `(x, y)`.
pub open spec fn near_door(g: Grid, x: int, y: int, radius: int) -> bool {
    exists|dx: int, dy: int|
        g.in_bounds(dx, dy) && #[trigger] g.cell(dx, dy) == DOOR && manhattan(x, y, dx, dy)
            <= radius
}

/// What one window pass over `g0` with configuration `cfg` may leave
/// behind, witnessed by the set of converted cells: pairwise-distinct
/// hull walls away from doors, at most `max_per_room` of them, turned to
/// windows while every other cell keeps its byte.
pub open spec fn windows_placed(g0: Grid, g1: Grid, cfg: WindowConfig, picked: Seq<(usize, usize)>) -> bool {
    &&& picked.no_duplicates()
    &&& picked.len() <= cfg.max_per_room
    &&& forall|k: int|
        0 <= k < picked.len() ==> {
            let p = #[trigger] picked[k];
            &&& g0.in_bounds(p.0 as int, p.1 as int)
            &&& hull_wall(g0, p.0 as int, p.1 as int)
            &&& !near_door(g0, p.0 as int, p.1 as int, cfg.avoid_doors_radius as int)
        }
    &&& forall|x: int, y: int|
        g0.in_bounds(x, y) ==> #[trigger] g1.cell(x, y) == (if picked.contains(
            (x as usize, y as usize),
        ) {
            WINDOW
        } else {
            g0.cell(x, y)
        })
}

/// Candidate scan order: row before column.
pub open spec fn scan_lt(a: (usize, usize), b: (usize, usize)) -> bool {
    a.1 < b.1 || (a.1 == b.1 && a.0 < b.0)
}

/// Whether `(x, y)` is a hull wall of the grid.
fn is_hull_wall(map: &Grid, x: usize, y: usize) -> (r: bool)
    requires
        map.wf(),
        map.in_bounds(x as int, y as int),
    ensures
        r == hull_wall(*map, x as int, y as int),
{
    if map.get(x, y) != WALL {
        return false;
    }
    let mut has_floor = false;
    let mut has_empty = false;
    if x + 1 < map.width {
        let c = map.get(x + 1, y);
        if c == FLOOR {
            has_floor = true;
        }
        if c == EMPTY {
            has_empty = true;
        }
    }
    if x > 0 {
        let c = map.get(x - 1, y);
        if c == FLOOR {
            has_floor = true;
        }
        if c == EMPTY {
            has_empty = true;
        }
    }
    if y + 1 < map.height {
        let c = map.get(x, y + 1);
        if c == FLOOR {
            has_floor = true;
        }
        if c == EMPTY {
            has_empty = true;
        }
    }
    if y > 0 {
        let c = map.get(x, y - 1);
        if c == FLOOR {
            has_floor = true;
        }
        if c == EMPTY {
            has_empty = true;
        }
    }
    has_floor && has_empty
}

/// Whether some door in the list lies within Manhattan distance `radius`
/// of `(x, y)`. The list must hold exactly the door cells of `g`.
fn close_to_some_door(
    doors: &Vec<(usize, usize)>,
    x: usize,
    y: usize,
    radius: usize,
    Ghost(g): Ghost<Grid>,
) -> (r: bool)
    requires
        g.wf(),
        g.width + g.height <= usize::MAX,
        forall|k: int|
            0 <= k < doors@.len() ==> {
                let d = #[trigger] doors@[k];
                cell_is(g, d.0 as int, d.1 as int, DOOR)
            },
        forall|dx: int, dy: int|
            g.in_bounds(dx, dy) && #[trigger] g.cell(dx, dy) == DOOR ==> doors@.contains(
                (dx as usize, dy as usize),
            ),
        x < g.width,
        y < g.height,
    ensures
        r == near_door(g, x as int, y as int, radius as int),
{
    let mut k: usize = 0;
    while k < doors.len()
        invariant
            k <= doors@.len(),
            x < g.width,
            y < g.height,
            g.width + g.height <= usize::MAX,
            forall|j: int|
                0 <= j < doors@.len() ==> {
                    let d = #[trigger] doors@[j];
                    cell_is(g, d.0 as int, d.1 as int, DOOR)
                },
            forall|j: int|
                0 <= j < k ==> manhattan(
                    x as int,
                    y as int,
                    (#[trigger] doors@[j]).0 as int,
                    doors@[j].1 as int,
                ) > radius,
        decreases doors@.len() - k,
    {
        let (dx, dy) = doors[k];
        let ddx = if x < dx {
            dx - x
        } else {
            x - dx
        };
        let ddy = if y < dy {
            dy - y
        } else {
            y - dy
        };
        if ddx + ddy <= radius {
            proof {
                assert(cell_is(g, dx as int, dy as int, DOOR));
            }
            return true;
        }
        k = k + 1;
    }
    proof {
        if near_door(g, x as int, y as int, radius as int) {
            let (dx, dy) = choose|dx: int, dy: int|
                g.in_bounds(dx, dy) && #[trigger] g.cell(dx, dy) == DOOR && manhattan(
                    x as int,
                    y as int,
                    dx,
                    dy,
                ) <= radius;
            assert(doors@.contains((dx as usize, dy as usize)));
            let j = choose|j: int|
                0 <= j < doors@.len() && doors@[j] == (dx as usize, dy as usize);
            assert(manhattan(x as int, y as int, doors@[j].0 as int, doors@[j].1 as int) > radius);
        }
    }
    false
}

/// Collect every door cell of the grid, in scan order.
fn collect_doors(map: &Grid) -> (doors: Vec<(usize, usize)>)
    requires
        map.wf(),
    ensures
        forall|k: int|
            0 <= k < doors@.len() ==> {
                let d = #[trigger] doors@[k];
                cell_is(*map, d.0 as int, d.1 as int, DOOR)
            },
        forall|dx: int, dy: int|
            map.in_bounds(dx, dy) && #[trigger] map.cell(dx, dy) == DOOR ==> doors@.contains(
                (dx as usize, dy as usize),
            ),
{
    let mut doors: Vec<(usize, usize)> = Vec::new();
    let mut y: usize = 0;
    while y < map.height
        invariant
            map.wf(),
            y <= map.height,
            forall|k: int|
                0 <= k < doors@.len() ==> {
                    let d = #[trigger] doors@[k];
                    cell_is(*map, d.0 as int, d.1 as int, DOOR)
                },
            forall|px: int, py: int|
                0 <= px < map.width && 0 <= py < y && map.cell(px, py) == DOOR
                    ==> #[trigger] doors@.contains((px as usize, py as usize)),
        decreases map.height - y,
    {
        let mut x: usize = 0;
        while x < map.width
            invariant
                map.wf(),
                y < map.height,
                x <= map.width,
                forall|k: int|
                    0 <= k < doors@.len() ==> {
                        let d = #[trigger] doors@[k];
                        cell_is(*map, d.0 as int, d.1 as int, DOOR)
                    },
                forall|px: int, py: int|
                    0 <= px < map.width && 0 <= py < y && map.cell(px, py) == DOOR
                        ==> #[trigger] doors@.contains((px as usize, py as usize)),
                forall|px: int|
                    0 <= px < x && map.cell(px, y as int) == DOOR ==> #[trigger] doors@.contains(
                        (px as usize, y),
                    ),
            decreases map.width - x,
        {
            if map.get(x, y) == DOOR {
                let ghost before = doors@;
                doors.push((x, y));
                proof {
                    assert forall|px: int, py: int|
                        0 <= px < map.width && 0 <= py < y && map.cell(px, py)
                            == DOOR implies #[trigger] doors@.contains((px as usize, py as usize)) by {
                        assert(before.contains((px as usize, py as usize)));
                        let k = choose|k: int|
                            0 <= k < before.len() && before[k] == (px as usize, py as usize);
                        assert(doors@[k] == (px as usize, py as usize));
                    }
                    assert forall|px: int|
                        0 <= px <= x && map.cell(px, y as int) == DOOR implies #[trigger] doors@.contains(
                        (px as usize, y),
                    ) by {
                        if px == x {
                            assert(doors@[doors@.len() - 1] == (x, y));
                        } else {
                            assert(before.contains((px as usize, y)));
                            let k = choose|k: int|
                                0 <= k < before.len() && before[k] == (px as usize, y);
                            assert(doors@[k] == (px as usize, y));
                        }
                    }
                }
            }
            x = x + 1;
        }
        y = y + 1;
    }
    doors
}


/// The cell at `(x, y)` may receive a window: a hull wall farther than
/// the door-avoidance radius from every door.
pub open spec fn window_eligible(g: Grid, radius: int, x: int, y: int) -> bool {
    hull_wall(g, x, y) && !near_door(g, x, y, radius)
}

/// The window-eligible cells among the first `x` cells of row `y`, in
/// scan order.
pub open spec fn eligible_row_cells(g: Grid, radius: int, y: int, x: int) -> Seq<(usize, usize)>
    decreases x,
{
    if x <= 0 {
        Seq::empty()
    } else {
        eligible_row_cells(g, radius, y, x - 1) + (if window_eligible(g, radius, x - 1, y) {
            seq![((x - 1) as usize, y as usize)]
        } else {
            Seq::empty()
        })
    }
}

/// The window-eligible cells of the first `y` rows, in scan order.
pub open spec fn eligible_cells_upto(g: Grid, radius: int, y: int) -> Seq<(usize, usize)>
    decreases y,
{
    if y <= 0 {
        Seq::empty()
    } else {
        eligible_cells_upto(g, radius, y - 1) + eligible_row_cells(g, radius, y - 1, g.width as int)
    }
}

/// Every window-eligible cell of the grid, row by row and column by
/// column.
pub open spec fn eligible_cells(g: Grid, radius: int) -> Seq<(usize, usize)> {
    eligible_cells_upto(g, radius, g.height as int)
}

/// How many window-eligible cells the grid holds.
pub open spec fn count_eligible(g: Grid, radius: int) -> int {
    eligible_cells(g, radius).len() as int
}

/// How many windows one pass places when `total` cells are eligible: the
/// density percentage of the total, rounded, raised to the lower clamp,
/// capped by the upper clamp, and never more than the total.
pub open spec fn desired_windows(total: int, cfg: WindowConfig) -> int {
    let rounded = (total * cfg.density + 50) / 100;
    let raised = if rounded < cfg.min_per_room {
        cfg.min_per_room as int
    } else {
        rounded
    };
    let capped = if raised > cfg.max_per_room {
        cfg.max_per_room as int
    } else {
        raised
    };
    if capped > total {
        total
    } else {
        capped
    }
}

/// The cells that one window pass over `g` converts: the front of the
/// seeded shuffle of the eligible cells, cut at the density-controlled,
/// clamped count. A fixed grid, configuration, seed and request history
/// fix this choice, which is what makes the pass reproducible.
pub open spec fn window_choice(
    g: Grid,
    cfg: WindowConfig,
    seed: u64,
    history: Seq<(int, int, int)>,
) -> Seq<(usize, usize)> {
    let cells = eligible_cells(g, cfg.avoid_doors_radius as int);
    if cells.len() == 0 {
        cells
    } else {
        crate::rng::shuffle_draw(seed, history, cells).take(
            desired_windows(cells.len() as int, cfg),
        )
    }
}

/// The window pass: collect the hull walls farther than the
/// door-avoidance radius from every door, shuffle them with the seeded
/// generator, and convert a density-controlled, clamped number of them,
/// taken from the front of the shuffled list, into windows.
pub fn place_windows(map: &mut Grid, _room_vec: &RoomVec, cfg: &WindowConfig, rng: &mut LevelRng)
    requires
        old(map).wf(),
        cfg.density <= 100,
        old(map).width * old(map).height * 100 + 50 <= usize::MAX,
        old(map).width + old(map).height <= usize::MAX,
    ensures
        final(map).wf(),
        final(map).same_dims(*old(map)),
        final(rng).seed@ == old(rng).seed@,
        forall|x: int, y: int|
            old(map).in_bounds(x, y) && final(map).cell(x, y) != old(map).cell(x, y) ==> {
                &&& hull_wall(*old(map), x, y)
                &&& !near_door(*old(map), x, y, cfg.avoid_doors_radius as int)
                &&& #[trigger] final(map).cell(x, y) == WINDOW
            },
        windows_placed(
            *old(map),
            *final(map),
            *cfg,
            window_choice(*old(map), *cfg, old(rng).seed@, old(rng).history@),
        ),
        window_choice(*old(map), *cfg, old(rng).seed@, old(rng).history@).len()
            == desired_windows(count_eligible(*old(map), cfg.avoid_doors_radius as int), *cfg),
        final(rng).history@ == (if count_eligible(*old(map), cfg.avoid_doors_radius as int) == 0 {
            old(rng).history@
        } else {
            old(rng).history@.push(
                (1int, count_eligible(*old(map), cfg.avoid_doors_radius as int), 0int),
            )
        }),
{
    let ghost orig = *map;
    broadcast use group_seq_properties;

    let radius = cfg.avoid_doors_radius;
    let ghost r = radius as int;
    let doors = collect_doors(map);

    // 1. collect the eligible cells: hull walls away from every door
    let mut kept: Vec<(usize, usize)> = Vec::new();
    let mut y: usize = 0;
    while y < map.height
        invariant
            map.wf(),
            *map == orig,
            orig.width + orig.height <= usize::MAX,
            r == radius == cfg.avoid_doors_radius,
            y <= map.height,
            kept@.len() <= y * map.width,
            kept@ == eligible_cells_upto(orig, r, y as int),
            forall|k: int|
                0 <= k < doors@.len() ==> {
                    let d = #[trigger] doors@[k];
                    cell_is(orig, d.0 as int, d.1 as int, DOOR)
                },
            forall|dx: int, dy: int|
                orig.in_bounds(dx, dy) && #[trigger] orig.cell(dx, dy) == DOOR ==> doors@.contains(
                    (dx as usize, dy as usize),
                ),
            forall|k: int|
                0 <= k < kept@.len() ==> {
                    let p = #[trigger] kept@[k];
                    &&& orig.in_bounds(p.0 as int, p.1 as int)
                    &&& window_eligible(orig, r, p.0 as int, p.1 as int)
                },
            forall|k1: int, k2: int|
                0 <= k1 < k2 < kept@.len() ==> scan_lt(#[trigger] kept@[k1], #[trigger] kept@[k2]),
            forall|k: int| 0 <= k < kept@.len() ==> (#[trigger] kept@[k]).1 < y,
        decreases map.height - y,
    {
        let mut x: usize = 0;
        while x < map.width
            invariant
                map.wf(),
                *map == orig,
                orig.width + orig.height <= usize::MAX,
                r == radius == cfg.avoid_doors_radius,
                y < map.height,
                x <= map.width,
                kept@.len() <= y * map.width + x,
                kept@ == eligible_cells_upto(orig, r, y as int) + eligible_row_cells(
                    orig,
                    r,
                    y as int,
                    x as int,
                ),
                forall|k: int|
                    0 <= k < doors@.len() ==> {
                        let d = #[trigger] doors@[k];
                        cell_is(orig, d.0 as int, d.1 as int, DOOR)
                    },
                forall|dx: int, dy: int|
                    orig.in_bounds(dx, dy) && #[trigger] orig.cell(dx, dy) == DOOR
                        ==> doors@.contains((dx as usize, dy as usize)),
                forall|k: int|
                    0 <= k < kept@.len() ==> {
                        let p = #[trigger] kept@[k];
                        &&& orig.in_bounds(p.0 as int, p.1 as int)
                        &&& window_eligible(orig, r, p.0 as int, p.1 as int)
                    },
                forall|k1: int, k2: int|
                    0 <= k1 < k2 < kept@.len() ==> scan_lt(
                        #[trigger] kept@[k1],
                        #[trigger] kept@[k2],
                    ),
                forall|k: int| 0 <= k < kept@.len() ==> scan_lt(#[trigger] kept@[k], (x, y)),
            decreases map.width - x,
        {
            let hull = is_hull_wall(map, x, y);
            let keep = if hull {
                if radius > 0 {
                    !close_to_some_door(&doors, x, y, radius, Ghost(orig))
                } else {
                    true
                }
            } else {
                false
            };
            proof {
                if hull && radius == 0 {
                    // a door within distance zero would have to sit on the
                    // wall cell itself
                    if near_door(orig, x as int, y as int, 0) {
                        let (dx2, dy2) = choose|dx2: int, dy2: int|
                            orig.in_bounds(dx2, dy2) && #[trigger] orig.cell(dx2, dy2) == DOOR
                                && manhattan(x as int, y as int, dx2, dy2) <= 0;
                        assert(dx2 == x as int && dy2 == y as int);
                        assert(orig.cell(x as int, y as int) == WALL);
                    }
                }
                assert(keep == window_eligible(orig, r, x as int, y as int));
            }
            if keep {
                kept.push((x, y));
            }
            proof {
                assert(eligible_row_cells(orig, r, y as int, x as int + 1) == eligible_row_cells(
                    orig,
                    r,
                    y as int,
                    x as int,
                ) + (if window_eligible(orig, r, x as int, y as int) {
                    seq![(x, y)]
                } else {
                    Seq::empty()
                }));
                assert(kept@ =~= eligible_cells_upto(orig, r, y as int) + eligible_row_cells(
                    orig,
                    r,
                    y as int,
                    x as int + 1,
                ));
            }
            x = x + 1;
        }
        proof {
            assert(y * map.width + map.width == (y + 1) * map.width) by (nonlinear_arith);
            assert(eligible_cells_upto(orig, r, y as int + 1) == eligible_cells_upto(
                orig,
                r,
                y as int,
            ) + eligible_row_cells(orig, r, y as int, orig.width as int));
            assert(kept@ =~= eligible_cells_upto(orig, r, y as int + 1));
        }
        y = y + 1;
    }
    proof {
        assert(kept@ == eligible_cells(orig, r));
        assert(kept@.no_duplicates()) by {
            assert forall|k1: int, k2: int|
                0 <= k1 < kept@.len() && 0 <= k2 < kept@.len() && k1 != k2 implies kept@[k1]
                != kept@[k2] by {
                if k1 < k2 {
                    assert(scan_lt(kept@[k1], kept@[k2]));
                } else {
                    assert(scan_lt(kept@[k2], kept@[k1]));
                }
            }
        }
    }

    if kept.len() == 0 {
        proof {
            assert(window_choice(orig, *cfg, old(rng).seed@, old(rng).history@)
                =~= Seq::<(usize, usize)>::empty());
            assert(windows_placed(orig, *map, *cfg, Seq::<(usize, usize)>::empty()));
        }
        return ;
    }

    // 2. shuffle with the seeded generator
    let ghost kept_before_shuffle = kept@;
    rng.shuffle_pairs(&mut kept);
    proof {
        kept_before_shuffle.lemma_multiset_has_no_duplicates();
        assert forall|e: (usize, usize)|
            kept@.to_multiset().contains(e) implies kept@.to_multiset().count(e) == 1 by {
            assert(kept_before_shuffle.to_multiset().contains(e));
        }
        kept@.lemma_multiset_has_no_duplicates_conv();
        assert forall|k: int| 0 <= k < kept@.len() implies {
            let p = #[trigger] kept@[k];
            &&& orig.in_bounds(p.0 as int, p.1 as int)
            &&& window_eligible(orig, r, p.0 as int, p.1 as int)
        } by {
            let p = kept@[k];
            assert(kept@.to_multiset().contains(p)) by {
                kept@.to_multiset_ensures();
            }
            assert(kept_before_shuffle.to_multiset().contains(p));
            assert(kept_before_shuffle.contains(p)) by {
                kept_before_shuffle.to_multiset_ensures();
            }
            let j = choose|j: int|
                0 <= j < kept_before_shuffle.len() && kept_before_shuffle[j] == p;
        }
    }

    // 3. how many windows to place, globally over all candidates
    let total = kept.len();
    proof {
        lemma_desired_bound(
            total as int,
            cfg.density as int,
            orig.width as int,
            orig.height as int,
        );
    }
    let mut desired: usize = (total * (cfg.density as usize) + 50) / 100;
    if desired < cfg.min_per_room {
        desired = cfg.min_per_room;
    }
    if desired > cfg.max_per_room {
        desired = cfg.max_per_room;
    }
    if desired > total {
        desired = total;
    }
    proof {
        assert(desired as int == desired_windows(total as int, *cfg));
    }

    // 4. convert the front of the shuffled list
    let mut k: usize = 0;
    while k < desired
        invariant
            map.wf(),
            map.same_dims(orig),
            k <= desired <= kept@.len(),
            kept@.no_duplicates(),
            r == cfg.avoid_doors_radius,
            forall|j: int|
                0 <= j < kept@.len() ==> {
                    let p = #[trigger] kept@[j];
                    &&& orig.in_bounds(p.0 as int, p.1 as int)
                    &&& window_eligible(orig, r, p.0 as int, p.1 as int)
                },
            forall|x: int, y: int|
                orig.in_bounds(x, y) ==> #[trigger] map.cell(x, y) == (if exists|j: int|
                    0 <= j < k && kept@[j] == (x as usize, y as usize) {
                    WINDOW
                } else {
                    orig.cell(x, y)
                }),
        decreases desired - k,
    {
        let (wx, wy) = kept[k];
        proof {
            assert(window_eligible(orig, r, wx as int, wy as int));
            if exists|j: int| 0 <= j < k && kept@[j] == (wx, wy) {
                let j = choose|j: int| 0 <= j < k && kept@[j] == (wx, wy);
                assert(kept@[j] == kept@[k as int]);
                assert(false);
            }
        }
        if map.get(wx, wy) == WALL {
            map.set(wx, wy, WINDOW);
        }
        proof {
            assert forall|x: int, y: int| orig.in_bounds(x, y) implies #[trigger] map.cell(x, y)
                == (if exists|j: int| 0 <= j < k + 1 && kept@[j] == (x as usize, y as usize) {
                WINDOW
            } else {
                orig.cell(x, y)
            }) by {
                if x == wx && y == wy {
                    assert(kept@[k as int] == (x as usize, y as usize));
                } else {
                    if exists|j: int| 0 <= j < k && kept@[j] == (x as usize, y as usize) {
                        let j = choose|j: int| 0 <= j < k && kept@[j] == (x as usize, y as usize);
                        assert(0 <= j < k + 1 && kept@[j] == (x as usize, y as usize));
                    } else {
                        assert forall|j: int|
                            0 <= j < k + 1 implies kept@[j] != (x as usize, y as usize) by {
                            if j == k {
                                assert(kept@[j] == (wx, wy));
                            }
                        }
                    }
                }
            }
        }
        k = k + 1;
    }

    proof {
        let picked = kept@.take(desired as int);
        assert(picked == window_choice(orig, *cfg, old(rng).seed@, old(rng).history@));
        assert(picked.no_duplicates()) by {
            assert forall|k1: int, k2: int|
                0 <= k1 < picked.len() && 0 <= k2 < picked.len() && k1 != k2 implies picked[k1]
                != picked[k2] by {
                assert(picked[k1] == kept@[k1]);
                assert(picked[k2] == kept@[k2]);
            }
        }
        assert forall|x: int, y: int| orig.in_bounds(x, y) implies #[trigger] map.cell(x, y) == (
        if picked.contains((x as usize, y as usize)) {
            WINDOW
        } else {
            orig.cell(x, y)
        }) by {
            if picked.contains((x as usize, y as usize)) {
                let j = choose|j: int|
                    0 <= j < picked.len() && picked[j] == (x as usize, y as usize);
                assert(kept@[j] == (x as usize, y as usize));
            } else {
                if exists|j: int| 0 <= j < desired && kept@[j] == (x as usize, y as usize) {
                    let j = choose|j: int|
                        0 <= j < desired && kept@[j] == (x as usize, y as usize);
                    assert(picked[j] == (x as usize, y as usize));
                }
            }
        }
        assert(windows_placed(orig, *map, *cfg, picked));
    }
}


/// The density formula stays within machine bounds: the candidate count
/// is at most one per grid cell and the density is at most one hundred
/// percent.
proof fn lemma_desired_bound(total: int, density: int, w: int, h: int)
    requires
        0 <= total,
        total <= h * w,
        0 <= density <= 100,
        0 <= w,
        0 <= h,
    ensures
        total * density + 50 <= w * h * 100 + 50,
{
    assert(total * density <= w * h * 100) by (nonlinear_arith)
        requires
            0 <= total,
            total <= h * w,
            0 <= density <= 100,
            0 <= w,
            0 <= h,
    ;
}

/// Window exclusion: a cell that the window pass turned into a window
/// lies farther than the door-avoidance radius (Manhattan distance) from
/// every door cell of the grid the pass read.
pub proof fn lemma_window_exclusion(
    g0: Grid,
    g1: Grid,
    cfg: WindowConfig,
    x: int,
    y: int,
    dx: int,
    dy: int,
)
    requires
        g0.wf(),
        g1.wf(),
        g1.same_dims(g0),
        forall|px: int, py: int|
            g0.in_bounds(px, py) && g1.cell(px, py) != g0.cell(px, py) ==> {
                &&& hull_wall(g0, px, py)
                &&& !near_door(g0, px, py, cfg.avoid_doors_radius as int)
                &&& #[trigger] g1.cell(px, py) == WINDOW
            },
        g0.in_bounds(x, y),
        g1.cell(x, y) == WINDOW,
        g0.cell(x, y) != WINDOW,
        g0.in_bounds(dx, dy),
        g0.cell(dx, dy) == DOOR,
    ensures
        manhattan(x, y, dx, dy) > cfg.avoid_doors_radius,
{
    assert(g1.cell(x, y) != g0.cell(x, y));
    assert(!near_door(g0, x, y, cfg.avoid_doors_radius as int));
    if manhattan(x, y, dx, dy) <= cfg.avoid_doors_radius {
        assert(g0.in_bounds(dx, dy) && g0.cell(dx, dy) == DOOR && manhattan(x, y, dx, dy)
            <= cfg.avoid_doors_radius as int);
        assert(near_door(g0, x, y, cfg.avoid_doors_radius as int));
    }
}

} // verus!
