//! Table placement: a shuffled selection of floor cells of one room
//! grid.

use crate::grid::FLOOR;
use rand::seq::SliceRandom;
use crate::rng::LevelRng;
use vstd::prelude::*;
use vstd::seq_lib::group_seq_properties;

verus! {

#[verifier::external_type_specification]
#[verifier::external_body]
pub struct ExThreadRng(rand::rngs::ThreadRng);

/// Relies on `rand::rng`: a handle to the thread-local generator.
#[verifier::external_body]
fn ambient_generator() -> rand::rngs::ThreadRng {
    rand::rng()
}

/// Relies on rand's `SliceRandom::shuffle` on `ThreadRng`: it permutes
/// the slice in place; nothing is promised of the order that comes out.
#[verifier::external_body]
fn shuffle_with_thread(items: &mut Vec<(usize, usize)>, rng: &mut rand::rngs::ThreadRng)
    ensures
        final(items)@.to_multiset() == old(items)@.to_multiset(),
        final(items)@.len() == old(items)@.len(),
{
    items.shuffle(rng);
}

/// Positions chosen for tables: distinct floor-cell tile coordinates.
pub type TablePositions = Vec<(usize, usize)>;

/// The cell at `(x, y)` of the raw row grid exists and holds a floor.
pub open spec fn floor_cell_at(grid: Seq<Vec<u8>>, x: int, y: int) -> bool {
    0 <= y < grid.len() && 0 <= x < grid[y]@.len() && grid[y]@[x] == FLOOR
}

/// The floor cells among the first `x` cells of row `y`, in scan order.
pub open spec fn floor_row_cells(grid: Seq<Vec<u8>>, y: int, x: int) -> Seq<(usize, usize)>
    decreases x,
{
    if x <= 0 {
        Seq::empty()
    } else {
        floor_row_cells(grid, y, x - 1) + (if floor_cell_at(grid, x - 1, y) {
            seq![((x - 1) as usize, y as usize)]
        } else {
            Seq::empty()
        })
    }
}

/// The floor cells of the first `y` rows, in scan order.
pub open spec fn floor_cells_upto(grid: Seq<Vec<u8>>, y: int) -> Seq<(usize, usize)>
    decreases y,
{
    if y <= 0 {
        Seq::empty()
    } else {
        floor_cells_upto(grid, y - 1) + floor_row_cells(grid, y - 1, grid[y - 1]@.len() as int)
    }
}

/// Every floor cell of the grid, row by row and column by column.
pub open spec fn floor_cells(grid: Seq<Vec<u8>>) -> Seq<(usize, usize)> {
    floor_cells_upto(grid, grid.len() as int)
}

/// The positions a seeded run picks: the front of the seeded shuffle of
/// the floor cells in scan order. A fixed grid, cap and seed fix the
/// choice, which is what makes seeded layouts reproducible.
pub open spec fn table_choice(grid: Seq<Vec<u8>>, max_tables: int, seed: u64) -> Seq<
    (usize, usize),
> {
    let shuffled = crate::rng::shuffle_draw(seed, Seq::empty(), floor_cells(grid));
    if floor_cells(grid).len() > max_tables {
        shuffled.take(max_tables)
    } else {
        shuffled
    }
}

/// Row-major scan order over possibly ragged rows.
pub open spec fn row_scan_lt(a: (usize, usize), b: (usize, usize)) -> bool {
    a.1 < b.1 || (a.1 == b.1 && a.0 < b.0)
}

/// Pick up to `max_tables` floor cells of the room grid as table
/// positions: collect every floor cell, shuffle them — with a generator
/// seeded from `seed` for a reproducible layout, or with the thread-local
/// generator — and keep the front of the shuffled list. The positions are
/// pairwise distinct floor cells; when fewer floor cells exist than the
/// cap, every floor cell is picked.
pub fn generate_tables_from_grid(
    grid: &Vec<Vec<u8>>,
    max_tables: usize,
    seed: Option<u64>,
) -> (r: TablePositions)
    ensures
        r@.no_duplicates(),
        r@.len() <= max_tables,
        forall|k: int|
            0 <= k < r@.len() ==> floor_cell_at(
                grid@,
                (#[trigger] r@[k]).0 as int,
                r@[k].1 as int,
            ),
        r@.len() == max_tables || forall|x: int, y: int|
            floor_cell_at(grid@, x, y) ==> #[trigger] r@.contains((x as usize, y as usize)),
        seed matches Some(s) ==> r@ == table_choice(grid@, max_tables as int, s),
{
    broadcast use group_seq_properties;

    let mut floors: Vec<(usize, usize)> = Vec::new();
    let mut y: usize = 0;
    while y < grid.len()
        invariant
            y <= grid@.len(),
            forall|k: int|
                0 <= k < floors@.len() ==> floor_cell_at(
                    grid@,
                    (#[trigger] floors@[k]).0 as int,
                    floors@[k].1 as int,
                ),
            forall|k1: int, k2: int|
                0 <= k1 < k2 < floors@.len() ==> row_scan_lt(
                    #[trigger] floors@[k1],
                    #[trigger] floors@[k2],
                ),
            forall|k: int| 0 <= k < floors@.len() ==> (#[trigger] floors@[k]).1 < y,
            floors@ == floor_cells_upto(grid@, y as int),
            forall|px: int, py: int|
                0 <= py < y && floor_cell_at(grid@, px, py) ==> #[trigger] floors@.contains(
                    (px as usize, py as usize),
                ),
        decreases grid@.len() - y,
    {
        let row_len = grid[y].len();
        let mut x: usize = 0;
        while x < row_len
            invariant
                y < grid@.len(),
                row_len == grid@[y as int]@.len(),
                x <= row_len,
                forall|k: int|
                    0 <= k < floors@.len() ==> floor_cell_at(
                        grid@,
                        (#[trigger] floors@[k]).0 as int,
                        floors@[k].1 as int,
                    ),
                forall|k1: int, k2: int|
                    0 <= k1 < k2 < floors@.len() ==> row_scan_lt(
                        #[trigger] floors@[k1],
                        #[trigger] floors@[k2],
                    ),
                forall|k: int|
                    0 <= k < floors@.len() ==> row_scan_lt(#[trigger] floors@[k], (x, y)),
                floors@ == floor_cells_upto(grid@, y as int) + floor_row_cells(
                    grid@,
                    y as int,
                    x as int,
                ),
                forall|px: int, py: int|
                    0 <= py < y && floor_cell_at(grid@, px, py) ==> #[trigger] floors@.contains(
                        (px as usize, py as usize),
                    ),
                forall|px: int|
                    0 <= px < x && floor_cell_at(grid@, px, y as int)
                        ==> #[trigger] floors@.contains((px as usize, y)),
            decreases row_len - x,
        {
            if grid[y][x] == FLOOR {
                let ghost before = floors@;
                floors.push((x, y));
                proof {
                    assert(floor_row_cells(grid@, y as int, x as int + 1) == floor_row_cells(
                        grid@,
                        y as int,
                        x as int,
                    ) + seq![(x, y)]);
                    assert(floors@ =~= floor_cells_upto(grid@, y as int) + floor_row_cells(
                        grid@,
                        y as int,
                        x as int + 1,
                    ));
                    assert forall|px: int, py: int|
                        0 <= py < y && floor_cell_at(grid@, px, py) implies #[trigger] floors@.contains(
                        (px as usize, py as usize),
                    ) by {
                        assert(before.contains((px as usize, py as usize)));
                        let k = choose|k: int|
                            0 <= k < before.len() && before[k] == (px as usize, py as usize);
                        assert(floors@[k] == (px as usize, py as usize));
                    }
                    assert forall|px: int|
                        0 <= px <= x && floor_cell_at(grid@, px, y as int)
                            implies #[trigger] floors@.contains((px as usize, y)) by {
                        if px == x {
                            assert(floors@[floors@.len() - 1] == (x, y));
                        } else {
                            assert(before.contains((px as usize, y)));
                            let k = choose|k: int|
                                0 <= k < before.len() && before[k] == (px as usize, y);
                            assert(floors@[k] == (px as usize, y));
                        }
                    }
                }
            }
            proof {
                if grid@[y as int]@[x as int] != FLOOR {
                    assert(floor_row_cells(grid@, y as int, x as int + 1) =~= floor_row_cells(
                        grid@,
                        y as int,
                        x as int,
                    ));
                }
            }
            x = x + 1;
        }
        proof {
            assert(floor_cells_upto(grid@, y as int + 1) == floor_cells_upto(grid@, y as int)
                + floor_row_cells(grid@, y as int, grid@[y as int]@.len() as int));
        }
        y = y + 1;
    }

    let ghost collected = floors@;
    proof {
        assert(collected == floor_cells(grid@));
    }
    proof {
        assert(floors@.no_duplicates()) by {
            assert forall|k1: int, k2: int|
                0 <= k1 < floors@.len() && 0 <= k2 < floors@.len() && k1 != k2 implies floors@[k1]
                != floors@[k2] by {
                if k1 < k2 {
                    assert(row_scan_lt(floors@[k1], floors@[k2]));
                } else {
                    assert(row_scan_lt(floors@[k2], floors@[k1]));
                }
            }
        }
    }

    match seed {
        Some(s) => {
            let mut seeded = LevelRng::new(s);
            seeded.shuffle_pairs(&mut floors);
            proof {
                assert(floors@ == crate::rng::shuffle_draw(
                    s,
                    Seq::empty(),
                    floor_cells(grid@),
                ));
            }
        },
        None => {
            let mut ambient = ambient_generator();
            shuffle_with_thread(&mut floors, &mut ambient);
        },
    }
    proof {
        collected.lemma_multiset_has_no_duplicates();
        assert forall|e: (usize, usize)|
            floors@.to_multiset().contains(e) implies floors@.to_multiset().count(e) == 1 by {
            assert(collected.to_multiset().contains(e));
        }
        floors@.lemma_multiset_has_no_duplicates_conv();
        assert forall|k: int| 0 <= k < floors@.len() implies floor_cell_at(
            grid@,
            (#[trigger] floors@[k]).0 as int,
            floors@[k].1 as int,
        ) by {
            let p = floors@[k];
            assert(floors@.to_multiset().contains(p)) by {
                floors@.to_multiset_ensures();
            }
            assert(collected.to_multiset().contains(p));
            assert(collected.contains(p)) by {
                collected.to_multiset_ensures();
            }
            let j = choose|j: int| 0 <= j < collected.len() && collected[j] == p;
        }
        assert forall|x: int, y2: int|
            floor_cell_at(grid@, x, y2) implies #[trigger] floors@.contains(
            (x as usize, y2 as usize),
        ) by {
            assert(collected.contains((x as usize, y2 as usize)));
            let j = choose|j: int|
                0 <= j < collected.len() && collected[j] == (x as usize, y2 as usize);
            assert(collected.to_multiset().contains((x as usize, y2 as usize))) by {
                collected.to_multiset_ensures();
            }
            assert(floors@.to_multiset().contains((x as usize, y2 as usize)));
            assert(floors@.contains((x as usize, y2 as usize))) by {
                floors@.to_multiset_ensures();
            }
        }
    }

    let ghost shuffled = floors@;
    if floors.len() > max_tables {
        floors.truncate(max_tables);
        proof {
            assert(floors@ == shuffled.take(max_tables as int));
            assert(floors@.no_duplicates()) by {
                assert forall|k1: int, k2: int|
                    0 <= k1 < floors@.len() && 0 <= k2 < floors@.len() && k1
                    != k2 implies floors@[k1] != floors@[k2] by {
                    assert(floors@[k1] == shuffled[k1]);
                    assert(floors@[k2] == shuffled[k2]);
                }
            }
            assert forall|k: int| 0 <= k < floors@.len() implies floor_cell_at(
                grid@,
                (#[trigger] floors@[k]).0 as int,
                floors@[k].1 as int,
            ) by {
                assert(floors@[k] == shuffled[k]);
            }
        }
    }
    floors
}

} // verus!
