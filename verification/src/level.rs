//! The full generation pipeline, from an empty grid to the finished
//! level.

use crate::bsp::BspTree;
use crate::doors::place_doors;
use crate::grid::{Grid, DOOR, EMPTY, FLOOR, WALL, WINDOW};
use crate::hallway::{connect_terminals, corridor_covered, corridor_linked, sorted_by_center};
use crate::placer::{byte_from_templates, leaf_room_ok, lemma_stamped_byte, place_rooms,
    record_bytes_from, record_layout_boxed, record_matches};
use crate::rect::Rect;
use crate::rng::LevelRng;
use crate::rooms::{RoomRes, RoomVec};
use crate::walls::generate_walls;
use crate::windows::{place_windows, WindowConfig};
use vstd::prelude::*;

verus! {

/// Horizontal padding kept free of rooms on each side of the partitioned
/// area.
pub const PAD_X: usize = 20;

/// Vertical padding kept free of rooms on each side of the partitioned
/// area.
pub const PAD_Y: usize = 10;

/// How often one leaf retries a split before it becomes terminal.
pub const MAX_SPLIT_ATTEMPTS: usize = 5;

/// Dimensions and tunables under which the generator is guaranteed to
/// work: a map that leaves room for the padded root, coordinates small
/// enough for the corridor and density arithmetic, and a room size that
/// fits the margin arithmetic.
pub open spec fn generation_fits(map_w: int, map_h: int, min_leaf_size: int, min_room_size: int) -> bool {
    &&& map_w > 2 * PAD_X
    &&& map_h > 2 * PAD_Y
    &&& map_w <= usize::MAX / 4
    &&& map_h <= usize::MAX / 4
    &&& map_w * map_h * 100 + 50 <= usize::MAX
    &&& 1 <= min_leaf_size <= usize::MAX / 2
    &&& 1 <= min_room_size <= usize::MAX - 2
}

/// Every template's dimensions stay within the stamping arithmetic
/// bounds.
pub open spec fn templates_bounded(templates: RoomRes) -> bool {
    forall|n: int|
        1 <= n <= 6 ==> (#[trigger] templates.spec_room(n)).width <= usize::MAX / 4
            && templates.spec_room(n).height <= usize::MAX / 4
}

/// What the tree-building stage guarantees: a well-formed tree whose root
/// covers the padded area, terminal leaves with their placement outcome
/// (a room strictly inside the margin box, or none exactly when the leaf
/// is undersized), and the rooms sorted by center with one corridor of
/// floor between each consecutive pair.
pub open spec fn level_structure_ok(
    tree: BspTree,
    terminals: Seq<usize>,
    sorted_rooms: Seq<Rect>,
    map: Grid,
    min_room_size: int,
) -> bool {
    &&& tree.wf()
    &&& tree.nodes@.len() >= 1
    &&& forall|k: int| 0 <= k < terminals.len() ==> #[trigger] terminals[k] < tree.nodes@.len()
    &&& forall|k: int| 0 <= k < terminals.len() ==> tree.is_terminal(#[trigger] terminals[k] as int)
    &&& forall|k: int|
        0 <= k < terminals.len() ==> leaf_room_ok(
            #[trigger] tree.nodes@[terminals[k] as int],
            min_room_size,
        )
    &&& sorted_by_center(sorted_rooms)
    &&& forall|j: int|
        0 <= j < terminals.len() && tree.nodes@[#[trigger] terminals[j] as int].room is Some
            ==> sorted_rooms.contains(tree.nodes@[terminals[j] as int].room->0)
    &&& forall|k: int|
        0 <= k && k + 1 < sorted_rooms.len() ==> corridor_linked(
            map,
            #[trigger] sorted_rooms[k],
            sorted_rooms[k + 1],
        )
}

/// Partition the padded map area with a seeded binary space partition,
/// place one room per terminal leaf, and connect the rooms, sorted by
/// center, with corridors. Returns the tree, its terminal leaves, the
/// sorted room rectangles, and the generator, ready for the later passes
/// of the same seeded stream.
pub fn bsp_generate_level(
    map: &mut Grid,
    templates: &RoomRes,
    min_leaf_size: usize,
    min_room_size: usize,
    seed: u64,
    room_vec: &mut RoomVec,
) -> (r: (BspTree, Vec<usize>, Vec<Rect>, LevelRng))
    requires
        old(map).wf(),
        templates.wf(),
        templates_bounded(*templates),
        generation_fits(
            old(map).width as int,
            old(map).height as int,
            min_leaf_size as int,
            min_room_size as int,
        ),
    ensures
        final(map).wf(),
        final(map).same_dims(*old(map)),
        r.3.seed@ == seed,
        r.0.nodes@[0].rect == (Rect {
            x: PAD_X,
            y: PAD_Y,
            w: (old(map).width - 2 * PAD_X) as usize,
            h: (old(map).height - 2 * PAD_Y) as usize,
        }),
        level_structure_ok(r.0, r.1@, r.2@, *final(map), min_room_size as int),
        r.1@.no_duplicates(),
        forall|j: int|
            0 <= j < r.0.nodes@.len() && r.0.is_terminal(j) ==> exists|k: int|
                0 <= k < r.1@.len() && (#[trigger] r.1@[k]) as int == j,
        forall|j: int|
            0 <= j < r.0.nodes@.len() ==> (#[trigger] r.0.nodes@[j]).rect.within(
                Rect {
                    x: PAD_X,
                    y: PAD_Y,
                    w: (old(map).width - 2 * PAD_X) as usize,
                    h: (old(map).height - 2 * PAD_Y) as usize,
                },
            ),
        r.1@.len() >= 1,
        (old(map).width - 2 * PAD_X > 2 * min_leaf_size && old(map).height - 2 * PAD_Y > 2
            * min_leaf_size) ==> r.1@.len() >= 2,
        (min_leaf_size >= min_room_size + 2 && old(map).width - 2 * PAD_X >= min_room_size + 2
            && old(map).height - 2 * PAD_Y >= min_room_size + 2) ==> forall|k: int|
            0 <= k < r.1@.len() ==> (#[trigger] r.0.nodes@[r.1@[k] as int]).room is Some,
        final(room_vec).0@.len() >= old(room_vec).0@.len(),
        forall|k: int|
            0 <= k < old(room_vec).0@.len() ==> final(room_vec).0@[k] == old(room_vec).0@[k],
        forall|k: int|
            0 <= k < r.1@.len() && r.0.nodes@[#[trigger] r.1@[k] as int].room is Some
                ==> exists|m: int|
                old(room_vec).0@.len() <= m < final(room_vec).0@.len() && record_matches(
                    #[trigger] final(room_vec).0@[m],
                    r.0.nodes@[r.1@[k] as int].room->0,
                ),
        forall|x: int, y: int|
            old(map).in_bounds(x, y) ==> #[trigger] final(map).cell(x, y) == old(map).cell(x, y)
                || final(map).cell(x, y) == FLOOR || byte_from_templates(
                *templates,
                final(map).cell(x, y),
            ),
{
    let ghost rv0_len = old(room_vec).0@.len() as int;
    let mut rng = LevelRng::new(seed);
    let root = Rect::new(
        PAD_X,
        PAD_Y,
        map.width - 2 * PAD_X,
        map.height - 2 * PAD_Y,
    );
    let mut tree = BspTree::new(root);
    let mut terminals: Vec<usize> = Vec::new();
    proof {
        assert(tree.rooms_clear());
    }
    proof {
        assert(Seq::<usize>::empty().no_duplicates());
    }
    tree.split_leaf_recursive(0, &mut rng, min_leaf_size, MAX_SPLIT_ATTEMPTS, &mut terminals);
    let ghost built_terminals = terminals@;
    proof {
        assert forall|j: int| 0 <= j < tree.nodes@.len() implies (#[trigger] tree.nodes@[j]).rect.within(
            root,
        ) by {
            if j == 0 {
                assert(tree.nodes@[0].rect == root);
            }
        }
        assert forall|k: int|
            0 <= k < terminals@.len() implies (#[trigger] tree.nodes@[terminals@[k] as int]).rect.right()
            <= usize::MAX / 4 && tree.nodes@[terminals@[k] as int].rect.bottom() <= usize::MAX
            / 4 by {
            let t = terminals@[k] as int;
            if t >= 1 {
                assert(tree.nodes@[t].rect.within(root));
            }
        }
    }
    let ghost built = tree;
    place_rooms(&mut tree, &terminals, map, templates, min_room_size, &mut rng, room_vec);
    proof {
        if min_leaf_size >= min_room_size + 2 && root.w >= min_room_size + 2 && root.h
            >= min_room_size + 2 {
            assert forall|k: int|
                0 <= k < terminals@.len() implies (#[trigger] tree.nodes@[terminals@[k] as int]).room
                is Some by {
                let t = terminals@[k] as int;
                assert(leaf_room_ok(tree.nodes@[t], min_room_size as int));
                if t >= 1 {
                    assert(built.nodes@[t].rect.w >= min_leaf_size || built.nodes@[t].rect.w
                        >= root.w);
                    assert(built.nodes@[t].rect.h >= min_leaf_size || built.nodes@[t].rect.h
                        >= root.h);
                }
            }
        }
    }
    let ghost stamped_map = *map;
    let sorted_rooms = connect_terminals(&tree, &terminals, map, &mut rng);
    proof {
        let added = room_vec.0@.subrange(rv0_len, room_vec.0@.len() as int);
        assert forall|m: int|
            0 <= m < added.len() implies record_layout_boxed(#[trigger] added[m])
            && record_bytes_from(*templates, added[m]) by {
            assert(added[m] == room_vec.0@[rv0_len + m]);
        }
        assert forall|x: int, y: int|
            old(map).in_bounds(x, y) implies #[trigger] map.cell(x, y) == old(map).cell(x, y)
            || map.cell(x, y) == FLOOR || byte_from_templates(*templates, map.cell(x, y)) by {
            assert(stamped_map.cell(x, y) == crate::rooms::stamped_upto(
                *old(map),
                added,
                added.len() as int,
                x,
                y,
            ));
            lemma_stamped_byte(*old(map), added, *templates, added.len() as int, x, y);
            if map.cell(x, y) != stamped_map.cell(x, y) {
                assert(map.cell(x, y) == FLOOR);
            }
        }
        assert forall|j: int|
            0 <= j < tree.nodes@.len() && tree.is_terminal(j) implies exists|k: int|
            0 <= k < terminals@.len() && (#[trigger] terminals@[k]) as int == j by {
            assert(built.is_terminal(j));
            let k = choose|k: int|
                0 <= k < built_terminals.len() && (#[trigger] built_terminals[k]) as int == j;
            assert(terminals@[k] as int == j);
        }
    }
    (tree, terminals, sorted_rooms, rng)
}

/// Every placed room of a listed terminal leaf has a record with exactly
/// its bounding box.
pub open spec fn rooms_recorded(tree: BspTree, terminals: Seq<usize>, records: Seq<crate::rooms::Room>) -> bool {
    forall|k: int|
        0 <= k < terminals.len() && tree.nodes@[#[trigger] terminals[k] as int].room is Some
            ==> exists|m: int|
            0 <= m < records.len() && record_matches(
                #[trigger] records[m],
                tree.nodes@[terminals[k] as int].room->0,
            )
}

/// A finished level: the tile grid after every pass, the room records the
/// gameplay collaborators consume, and the structures that generation
/// worked from.
pub struct GeneratedLevel {
    pub map: Grid,
    pub rooms: RoomVec,
    pub tree: BspTree,
    pub terminals: Vec<usize>,
    pub sorted_rooms: Vec<Rect>,
}

/// Run the whole generation pipeline for one seed: an empty grid, the
/// seeded partition with room placement and corridors, then the wall
/// growth, door placement and window placement passes in that order.
/// The same seed and templates always feed the generator the same
/// requests, so the output is reproducible.
pub fn build_full_level(
    templates: &RoomRes,
    cfg: &WindowConfig,
    seed: u64,
    map_w: usize,
    map_h: usize,
    min_leaf_size: usize,
    min_room_size: usize,
) -> (level: GeneratedLevel)
    requires
        templates.wf(),
        templates_bounded(*templates),
        generation_fits(map_w as int, map_h as int, min_leaf_size as int, min_room_size as int),
        cfg.density <= 100,
    ensures
        level.map.wf(),
        level.map.width == map_w,
        level.map.height == map_h,
        level_structure_ok(
            level.tree,
            level.terminals@,
            level.sorted_rooms@,
            level.map,
            min_room_size as int,
        ),
        level.tree.nodes@[0].rect == (Rect {
            x: PAD_X,
            y: PAD_Y,
            w: (map_w - 2 * PAD_X) as usize,
            h: (map_h - 2 * PAD_Y) as usize,
        }),
        level.terminals@.len() >= 1,
        rooms_recorded(level.tree, level.terminals@, level.rooms.0@),
        (map_w - 2 * PAD_X > 2 * min_leaf_size && map_h - 2 * PAD_Y > 2 * min_leaf_size)
            ==> level.terminals@.len() >= 2,
        (min_leaf_size >= min_room_size + 2 && map_w - 2 * PAD_X >= min_room_size + 2 && map_h - 2
            * PAD_Y >= min_room_size + 2) ==> forall|k: int|
            0 <= k < level.terminals@.len() ==> (#[trigger] level.tree.nodes@[level.terminals@[k] as int]).room
                is Some,
        forall|x: int, y: int|
            level.map.in_bounds(x, y) ==> #[trigger] level.map.cell(x, y) == EMPTY
                || level.map.cell(x, y) == FLOOR || level.map.cell(x, y) == WALL
                || level.map.cell(x, y) == DOOR || level.map.cell(x, y) == WINDOW
                || byte_from_templates(*templates, level.map.cell(x, y)),
{
    let mut map = Grid::new(map_w, map_h, EMPTY);
    let mut room_vec = RoomVec(Vec::new());
    let (tree, terminals, sorted_rooms, mut rng) = bsp_generate_level(
        &mut map,
        templates,
        min_leaf_size,
        min_room_size,
        seed,
        &mut room_vec,
    );
    let ghost carved = map;

    generate_walls(&mut map);
    let ghost walled = map;
    place_doors(&mut map, &room_vec);
    let ghost doored = map;
    place_windows(&mut map, &room_vec, cfg, &mut rng);

    proof {
        // every tile's byte traces back through the passes: the empty
        // grid, a stamp (floor or a template byte), a corridor floor, a
        // grown wall, a cut door, or a placed window
        assert forall|px: int, py: int|
            carved.in_bounds(px, py) implies #[trigger] map.cell(px, py) == EMPTY || map.cell(
            px,
            py,
        ) == FLOOR || map.cell(px, py) == WALL || map.cell(px, py) == DOOR || map.cell(px, py)
            == WINDOW || byte_from_templates(*templates, map.cell(px, py)) by {
            assert(carved.cell(px, py) == EMPTY || carved.cell(px, py) == FLOOR
                || byte_from_templates(*templates, carved.cell(px, py)));
            assert(walled.cell(px, py) == crate::walls::grown_cell(carved, px, py));
            assert(doored.cell(px, py) == crate::doors::doored_cell(walled, room_vec.0@, px, py));
            if map.cell(px, py) != doored.cell(px, py) {
                assert(map.cell(px, py) == WINDOW);
            }
        }
        // the three raster passes never touch a floor cell, so the
        // corridors drawn by the connector are still floor in the end
        assert forall|px: int, py: int|
            carved.in_bounds(px, py) && carved.cell(px, py) == FLOOR implies #[trigger] map.cell(
            px,
            py,
        ) == FLOOR by {
            assert(walled.cell(px, py) == crate::walls::grown_cell(carved, px, py));
            assert(doored.cell(px, py) == crate::doors::doored_cell(
                walled,
                room_vec.0@,
                px,
                py,
            ));
            assert(doored.cell(px, py) == FLOOR);
            if map.cell(px, py) != doored.cell(px, py) {
                assert(map.cell(px, py) == crate::grid::WINDOW);
                assert(crate::windows::hull_wall(doored, px, py));
            }
        }
        assert forall|k: int|
            0 <= k && k + 1 < sorted_rooms@.len() implies corridor_linked(
            map,
            #[trigger] sorted_rooms@[k],
            sorted_rooms@[k + 1],
        ) by {
            let a = sorted_rooms@[k];
            let b = sorted_rooms@[k + 1];
            let hf = choose|hf: bool| #[trigger] corridor_covered(carved, a, b, hf);
            assert forall|px: int, py: int|
                map.in_bounds(px, py) && crate::hallway::hallway_member(
                    a,
                    b,
                    hf,
                    px,
                    py,
                ) implies #[trigger] map.cell(px, py) == FLOOR by {
                assert(carved.cell(px, py) == FLOOR);
            }
            assert(corridor_covered(map, a, b, hf));
        }
    }

    proof {
        assert(rooms_recorded(tree, terminals@, room_vec.0@));
    }
    GeneratedLevel { map, rooms: room_vec, tree, terminals, sorted_rooms }
}

} // verus!
