//! Room placement: one room per terminal leaf, either an authored
//! template stamped centered or a random rectangle of floor carved
//! inside the leaf's margin box.

use crate::bsp::BspTree;
use crate::grid::{Grid, FLOOR};
use crate::hallway::room_bounded;
use crate::rect::Rect;
use crate::rng::LevelRng;
use crate::rooms::{lemma_stamped_prefix, record_covers, stamped_cell, stamped_upto, write_room,
    Room, RoomLayout, RoomRes, RoomVec};
use vstd::prelude::*;

verus! {

/// Rooms keep a one-tile margin: the placed bounding box lies strictly
/// inside the leaf rectangle shrunk by one tile on every side.
pub open spec fn room_strictly_inside(r: Rect, leaf: Rect) -> bool {
    &&& leaf.x < r.x
    &&& leaf.y < r.y
    &&& r.right() < leaf.right()
    &&& r.bottom() < leaf.bottom()
}

/// The outcome of room placement for one terminal leaf: the leaf holds a
/// room exactly when its rectangle has space for the minimum room plus
/// the margin, and a placed room lies strictly inside the margin box
/// unless it is an authored template too large for that box (a template
/// is stamped centered and clipped rather than rejected).
pub open spec fn leaf_room_ok(leaf: crate::bsp::Leaf, min_room_size: int) -> bool {
    &&& (leaf.room is Some <==> (leaf.rect.w >= min_room_size + 2 && leaf.rect.h >= min_room_size
        + 2))
    &&& match leaf.room {
        Some(r) => {
            &&& r.w >= 1 && r.h >= 1
            &&& room_bounded(r)
            &&& (room_strictly_inside(r, leaf.rect) || r.w + 2 > leaf.rect.w || r.h + 2
                > leaf.rect.h)
        },
        None => true,
    }
}

/// Rows of one repeated byte, the layout of a procedurally carved room.
fn uniform_rows(w: usize, h: usize, c: u8) -> (rows: Vec<Vec<u8>>)
    ensures
        rows@.len() == h,
        forall|j: int| 0 <= j < h ==> (#[trigger] rows@[j])@.len() == w,
        forall|j: int, i: int| 0 <= j < h && 0 <= i < w ==> #[trigger] rows@[j]@[i] == c,
{
    let mut rows: Vec<Vec<u8>> = Vec::new();
    let mut j: usize = 0;
    while j < h
        invariant
            j <= h,
            rows@.len() == j,
            forall|k: int| 0 <= k < j ==> (#[trigger] rows@[k])@.len() == w,
            forall|k: int, i: int| 0 <= k < j && 0 <= i < w ==> #[trigger] rows@[k]@[i] == c,
        decreases h - j,
    {
        let mut row: Vec<u8> = Vec::new();
        let mut i: usize = 0;
        while i < w
            invariant
                i <= w,
                row@.len() == i,
                forall|k: int| 0 <= k < i ==> row@[k] == c,
            decreases w - i,
        {
            row.push(c);
            i = i + 1;
        }
        rows.push(row);
        j = j + 1;
    }
    rows
}

impl BspTree {
    /// Record the placed room of the terminal leaf at `i`.
    fn set_room(&mut self, i: usize, r: Option<Rect>)
        requires
            old(self).wf(),
            i < old(self).nodes@.len(),
            old(self).is_terminal(i as int),
        ensures
            final(self).wf(),
            final(self).nodes@.len() == old(self).nodes@.len(),
            forall|j: int|
                0 <= j < old(self).nodes@.len() && j != i ==> final(self).nodes@[j] == old(
                    self,
                ).nodes@[j],
            final(self).nodes@[i as int].rect == old(self).nodes@[i as int].rect,
            final(self).nodes@[i as int].left == old(self).nodes@[i as int].left,
            final(self).nodes@[i as int].right == old(self).nodes@[i as int].right,
            final(self).nodes@[i as int].room == r,
            final(self).is_terminal(i as int),
    {
        proof {
            assert(self.wf_node(i as int));
        }
        let ghost pre = *self;
        let mut node = self.nodes[i];
        node.room = r;
        self.nodes[i] = node;
        proof {
            assert forall|j: int| 0 <= j < self.nodes@.len() implies self.wf_node(j) by {
                assert(pre.wf_node(j));
            }
        }
    }
}

/// Carve a random rectangular room inside the leaf rectangle shrunk by
/// the one-tile margin: width and height are drawn within the allowed
/// range, then the top-left offset within the remaining slack.
fn create_random_room(rect: Rect, min_room_size: usize, rng: &mut LevelRng) -> (r: Rect)
    requires
        min_room_size >= 1,
        rect.w >= min_room_size + 2,
        rect.h >= min_room_size + 2,
        rect.right() <= usize::MAX / 4,
        rect.bottom() <= usize::MAX / 4,
    ensures
        final(rng).seed@ == old(rng).seed@,
        min_room_size <= r.w <= rect.w - 2,
        min_room_size <= r.h <= rect.h - 2,
        room_strictly_inside(r, rect),
        room_bounded(r),
        r == procedural_room(rect, min_room_size, old(rng).seed@, old(rng).history@),
        final(rng).history@ == procedural_history(
            rect,
            min_room_size,
            old(rng).seed@,
            old(rng).history@,
        ),
{
    let room_w = rng.range_usize(min_room_size, rect.w - 2);
    let room_h = rng.range_usize(min_room_size, rect.h - 2);
    let room_x = rng.range_usize(rect.x + 1, rect.x + rect.w - 1 - room_w);
    let room_y = rng.range_usize(rect.y + 1, rect.y + rect.h - 1 - room_h);
    Rect { x: room_x, y: room_y, w: room_w, h: room_h }
}

/// The record's bounding box is exactly the placed room rectangle.
pub open spec fn record_matches(rec: Room, r: Rect) -> bool {
    &&& rec.tile_top_left_corner == (r.x, r.y)
    &&& rec.tile_bot_right_corner.0 == r.x + r.w
    &&& rec.tile_bot_right_corner.1 == r.y + r.h
}

/// The rectangle the procedural path carves, as a function of the seed
/// and the request history at the first of its four draws: width and
/// height within the margin box, then the top-left offsets within the
/// remaining slack.
pub open spec fn procedural_room(
    rect: Rect,
    min_room_size: usize,
    seed: u64,
    h: Seq<(int, int, int)>,
) -> Rect {
    let room_w = crate::rng::range_draw(seed, h, min_room_size, (rect.w - 2) as usize);
    let h2 = h.push((0int, min_room_size as int, rect.w - 2));
    let room_h = crate::rng::range_draw(seed, h2, min_room_size, (rect.h - 2) as usize);
    let h3 = h2.push((0int, min_room_size as int, rect.h - 2));
    let room_x = crate::rng::range_draw(
        seed,
        h3,
        (rect.x + 1) as usize,
        (rect.x + rect.w - 1 - room_w) as usize,
    );
    let h4 = h3.push((0int, rect.x + 1, rect.x + rect.w - 1 - room_w));
    let room_y = crate::rng::range_draw(
        seed,
        h4,
        (rect.y + 1) as usize,
        (rect.y + rect.h - 1 - room_h) as usize,
    );
    Rect { x: room_x, y: room_y, w: room_w, h: room_h }
}

/// The request history after the procedural path's four draws.
pub open spec fn procedural_history(
    rect: Rect,
    min_room_size: usize,
    seed: u64,
    h: Seq<(int, int, int)>,
) -> Seq<(int, int, int)> {
    let room_w = crate::rng::range_draw(seed, h, min_room_size, (rect.w - 2) as usize);
    let h2 = h.push((0int, min_room_size as int, rect.w - 2));
    let room_h = crate::rng::range_draw(seed, h2, min_room_size, (rect.h - 2) as usize);
    let h3 = h2.push((0int, min_room_size as int, rect.h - 2));
    let h4 = h3.push((0int, rect.x + 1, rect.x + rect.w - 1 - room_w));
    h4.push((0int, rect.y + 1, rect.y + rect.h - 1 - room_h))
}

/// The room that placement gives a terminal leaf with rectangle `rect`,
/// as a function of the seed and the request history when the leaf is
/// reached: none when the margin box cannot hold the minimum room;
/// otherwise one draw in 1 to 12 selects the centered template of that
/// number (1 to 6) or the procedural rectangle (7 to 12).
pub open spec fn placed_room_for(
    rect: Rect,
    templates: RoomRes,
    min_room_size: usize,
    seed: u64,
    h: Seq<(int, int, int)>,
) -> Option<Rect> {
    if rect.w < min_room_size + 2 || rect.h < min_room_size + 2 {
        None
    } else {
        let choice = crate::rng::range_draw(seed, h, 1, 12);
        let h1 = h.push((0int, 1int, 12int));
        if choice <= 6 {
            let t = templates.spec_room(choice as int);
            let off_x: usize = if rect.w >= t.width {
                ((rect.w - t.width) as usize) / 2
            } else {
                0
            };
            let off_y: usize = if rect.h >= t.height {
                ((rect.h - t.height) as usize) / 2
            } else {
                0
            };
            Some(
                Rect {
                    x: (rect.x + off_x) as usize,
                    y: (rect.y + off_y) as usize,
                    w: t.width,
                    h: t.height,
                },
            )
        } else {
            Some(procedural_room(rect, min_room_size, seed, h1))
        }
    }
}

/// The request history after placement has processed one leaf: an
/// undersized leaf draws nothing, a template leaf draws only the path
/// choice, a procedural leaf draws the choice and its four rectangle
/// draws.
pub open spec fn placement_step_history(
    rect: Rect,
    min_room_size: usize,
    seed: u64,
    h: Seq<(int, int, int)>,
) -> Seq<(int, int, int)> {
    if rect.w < min_room_size + 2 || rect.h < min_room_size + 2 {
        h
    } else {
        let choice = crate::rng::range_draw(seed, h, 1, 12);
        let h1 = h.push((0int, 1int, 12int));
        if choice <= 6 {
            h1
        } else {
            procedural_history(rect, min_room_size, seed, h1)
        }
    }
}

/// The request history after placement has processed the first `k`
/// listed terminals.
pub open spec fn placement_history(
    tree: BspTree,
    terminals: Seq<usize>,
    min_room_size: usize,
    seed: u64,
    h0: Seq<(int, int, int)>,
    k: int,
) -> Seq<(int, int, int)>
    decreases k,
{
    if k <= 0 {
        h0
    } else {
        let h = placement_history(tree, terminals, min_room_size, seed, h0, k - 1);
        placement_step_history(
            tree.nodes@[terminals[k - 1] as int].rect,
            min_room_size,
            seed,
            h,
        )
    }
}

/// How many of the first `k` listed terminals receive a room and hence a
/// record: exactly those whose rectangle holds the minimum room plus the
/// one-tile margin.
pub open spec fn placed_count(
    tree: BspTree,
    terminals: Seq<usize>,
    min_room_size: usize,
    k: int,
) -> int
    decreases k,
{
    if k <= 0 {
        0
    } else {
        placed_count(tree, terminals, min_room_size, k - 1) + {
            let rect = tree.nodes@[terminals[k - 1] as int].rect;
            if rect.w < min_room_size + 2 || rect.h < min_room_size + 2 {
                0int
            } else {
                1int
            }
        }
    }
}

/// Earlier prefixes of the listed terminals never place more rooms than
/// later ones.
pub proof fn lemma_placed_count_mono(
    tree: BspTree,
    terminals: Seq<usize>,
    min_room_size: usize,
    j: int,
    k: int,
)
    requires
        j <= k,
    ensures
        placed_count(tree, terminals, min_room_size, j) <= placed_count(
            tree,
            terminals,
            min_room_size,
            k,
        ),
    decreases k - j,
{
    if j < k {
        lemma_placed_count_mono(tree, terminals, min_room_size, j, k - 1);
    }
}

/// The byte occurs somewhere in one of the six loaded templates.
pub open spec fn byte_from_templates(templates: RoomRes, c: u8) -> bool {
    exists|n: int, j: int, i: int|
        1 <= n <= 6 && 0 <= j < templates.spec_room(n).layout@.len() && 0 <= i
            < templates.spec_room(n).layout@[j]@.len() && #[trigger] templates.spec_room(
            n,
        ).layout@[j]@[i] == c
}

/// The record's layout buffer has exactly the dimensions of its bounding
/// box.
pub open spec fn record_layout_boxed(rec: Room) -> bool {
    &&& rec.layout@.len() == rec.tile_bot_right_corner.1 - rec.tile_top_left_corner.1
    &&& forall|j: int|
        0 <= j < rec.layout@.len() ==> (#[trigger] rec.layout@[j])@.len()
            == rec.tile_bot_right_corner.0 - rec.tile_top_left_corner.0
}

/// Every byte of the record's layout is a floor or comes from one of the
/// loaded templates.
pub open spec fn record_bytes_from(templates: RoomRes, rec: Room) -> bool {
    forall|j: int, i: int|
        0 <= j < rec.layout@.len() && 0 <= i < rec.layout@[j]@.len()
            ==> #[trigger] rec.layout@[j]@[i] == FLOOR || byte_from_templates(
            templates,
            rec.layout@[j]@[i],
        )
}

/// The record appended for a roomed terminal leaf: a fresh record whose
/// bounding box is the placed room and whose layout rows are the selected
/// template's rows for a path choice of 1 to 6, or all-floor rows of the
/// room's dimensions for a choice of 7 to 12.
pub open spec fn record_content_ok(
    rec: Room,
    rect: Rect,
    templates: RoomRes,
    min_room_size: usize,
    seed: u64,
    h: Seq<(int, int, int)>,
) -> bool {
    let choice = crate::rng::range_draw(seed, h, 1, 12);
    let room = placed_room_for(rect, templates, min_room_size, seed, h);
    &&& room is Some
    &&& record_matches(rec, room->0)
    &&& rec.cleared == false
    &&& rec.doors@.len() == 0
    &&& rec.numofenemies == 0
    &&& (choice <= 6 ==> {
        let t = templates.spec_room(choice as int);
        &&& rec.layout@.len() == t.layout@.len()
        &&& forall|j: int|
            0 <= j < t.layout@.len() ==> (#[trigger] rec.layout@[j])@ == t.layout@[j]@
    })
    &&& (choice > 6 ==> {
        &&& rec.layout@.len() == room->0.h
        &&& forall|j: int|
            0 <= j < rec.layout@.len() ==> (#[trigger] rec.layout@[j])@.len() == room->0.w
        &&& forall|j: int, i: int|
            0 <= j < room->0.h && 0 <= i < room->0.w ==> #[trigger] rec.layout@[j]@[i] == FLOOR
    })
}

/// Place one room in every listed terminal leaf: shrink the leaf by a
/// one-tile margin; if even the minimum room does not fit, place nothing;
/// otherwise draw one number in 1 to 12 — 1 to 6 select the authored
/// template of that number, stamped centered in the leaf, 7 to 12 carve a
/// random rectangle of floor inside the margin box. The leaf's room field
/// is set to the actual placed bounding box and a record of it is
/// appended.
#[verifier::rlimit(100)]
pub fn place_rooms(
    tree: &mut BspTree,
    terminals: &Vec<usize>,
    map: &mut Grid,
    templates: &RoomRes,
    min_room_size: usize,
    rng: &mut LevelRng,
    room_vec: &mut RoomVec,
)
    requires
        old(tree).wf(),
        old(map).wf(),
        templates.wf(),
        forall|k: int|
            0 <= k < terminals@.len() ==> #[trigger] terminals@[k] < old(tree).nodes@.len(),
        forall|k: int|
            0 <= k < terminals@.len() ==> old(tree).is_terminal(#[trigger] terminals@[k] as int),
        forall|k: int|
            0 <= k < terminals@.len() ==> (#[trigger] old(tree).nodes@[terminals@[k] as int]).rect.right()
                <= usize::MAX / 4 && old(tree).nodes@[terminals@[k] as int].rect.bottom()
                <= usize::MAX / 4,
        forall|n: int|
            1 <= n <= 6 ==> (#[trigger] templates.spec_room(n)).width <= usize::MAX / 4
                && templates.spec_room(n).height <= usize::MAX / 4,
        1 <= min_room_size <= usize::MAX - 2,
        terminals@.no_duplicates(),
    ensures
        final(tree).wf(),
        final(map).wf(),
        final(map).same_dims(*old(map)),
        final(rng).seed@ == old(rng).seed@,
        final(tree).nodes@.len() == old(tree).nodes@.len(),
        forall|j: int|
            0 <= j < old(tree).nodes@.len() ==> {
                &&& (#[trigger] final(tree).nodes@[j]).rect == old(tree).nodes@[j].rect
                &&& final(tree).nodes@[j].left == old(tree).nodes@[j].left
                &&& final(tree).nodes@[j].right == old(tree).nodes@[j].right
            },
        forall|k: int|
            0 <= k < terminals@.len() ==> leaf_room_ok(
                #[trigger] final(tree).nodes@[terminals@[k] as int],
                min_room_size as int,
            ),
        final(room_vec).0@.len() >= old(room_vec).0@.len(),
        forall|k: int|
            0 <= k < old(room_vec).0@.len() ==> final(room_vec).0@[k] == old(room_vec).0@[k],
        forall|x: int, y: int|
            old(map).in_bounds(x, y) ==> #[trigger] final(map).cell(x, y) == stamped_upto(
                *old(map),
                final(room_vec).0@.subrange(
                    old(room_vec).0@.len() as int,
                    final(room_vec).0@.len() as int,
                ),
                final(room_vec).0@.len() - old(room_vec).0@.len(),
                x,
                y,
            ),
        forall|k: int|
            0 <= k < terminals@.len() && final(tree).nodes@[#[trigger] terminals@[k] as int].room
                is Some ==> exists|m: int|
                old(room_vec).0@.len() <= m < final(room_vec).0@.len() && record_matches(
                    #[trigger] final(room_vec).0@[m],
                    final(tree).nodes@[terminals@[k] as int].room->0,
                ),
        forall|m: int|
            old(room_vec).0@.len() <= m < final(room_vec).0@.len() ==> record_layout_boxed(
                #[trigger] final(room_vec).0@[m],
            ) && record_bytes_from(*templates, final(room_vec).0@[m]),
        final(rng).history@ == placement_history(
            *old(tree),
            terminals@,
            min_room_size,
            old(rng).seed@,
            old(rng).history@,
            terminals@.len() as int,
        ),
        final(room_vec).0@.len() == old(room_vec).0@.len() + placed_count(
            *old(tree),
            terminals@,
            min_room_size,
            terminals@.len() as int,
        ),
        forall|k: int|
            0 <= k < terminals@.len() ==> {
                let leaf_rect = old(tree).nodes@[terminals@[k] as int].rect;
                let h_k = placement_history(
                    *old(tree),
                    terminals@,
                    min_room_size,
                    old(rng).seed@,
                    old(rng).history@,
                    k,
                );
                let room = final(tree).nodes@[#[trigger] terminals@[k] as int].room;
                &&& room == placed_room_for(leaf_rect, *templates, min_room_size, old(rng).seed@, h_k)
                &&& (room is Some && crate::rng::range_draw(old(rng).seed@, h_k, 1, 12) > 6 ==> {
                    &&& min_room_size <= room->0.w <= leaf_rect.w - 2
                    &&& min_room_size <= room->0.h <= leaf_rect.h - 2
                })
            },
        forall|k: int|
            0 <= k < terminals@.len() && placed_room_for(
                old(tree).nodes@[#[trigger] terminals@[k] as int].rect,
                *templates,
                min_room_size,
                old(rng).seed@,
                placement_history(
                    *old(tree),
                    terminals@,
                    min_room_size,
                    old(rng).seed@,
                    old(rng).history@,
                    k,
                ),
            ) is Some ==> record_content_ok(
                final(room_vec).0@[old(room_vec).0@.len() + placed_count(
                    *old(tree),
                    terminals@,
                    min_room_size,
                    k,
                )],
                old(tree).nodes@[terminals@[k] as int].rect,
                *templates,
                min_room_size,
                old(rng).seed@,
                placement_history(
                    *old(tree),
                    terminals@,
                    min_room_size,
                    old(rng).seed@,
                    old(rng).history@,
                    k,
                ),
            ),
{
    let ghost old_len = old(room_vec).0@.len() as int;
    let ghost seed0 = old(rng).seed@;
    let ghost h0 = old(rng).history@;
    let mut k: usize = 0;
    while k < terminals.len()
        invariant
            tree.wf(),
            map.wf(),
            map.same_dims(*old(map)),
            templates.wf(),
            rng.seed@ == old(rng).seed@,
            k <= terminals@.len(),
            tree.nodes@.len() == old(tree).nodes@.len(),
            forall|j: int|
                0 <= j < terminals@.len() ==> #[trigger] terminals@[j] < tree.nodes@.len(),
            forall|j: int|
                0 <= j < terminals@.len() ==> tree.is_terminal(#[trigger] terminals@[j] as int),
            forall|j: int|
                0 <= j < tree.nodes@.len() ==> {
                    &&& (#[trigger] tree.nodes@[j]).rect == old(tree).nodes@[j].rect
                    &&& tree.nodes@[j].left == old(tree).nodes@[j].left
                    &&& tree.nodes@[j].right == old(tree).nodes@[j].right
                },
            forall|j: int|
                0 <= j < terminals@.len() ==> (#[trigger] tree.nodes@[terminals@[j] as int]).rect.right()
                    <= usize::MAX / 4 && tree.nodes@[terminals@[j] as int].rect.bottom()
                    <= usize::MAX / 4,
            forall|n: int|
                1 <= n <= 6 ==> (#[trigger] templates.spec_room(n)).width <= usize::MAX / 4
                    && templates.spec_room(n).height <= usize::MAX / 4,
            1 <= min_room_size <= usize::MAX - 2,
            forall|j: int|
                0 <= j < k ==> leaf_room_ok(
                    #[trigger] tree.nodes@[terminals@[j] as int],
                    min_room_size as int,
                ),
            room_vec.0@.len() >= old(room_vec).0@.len(),
            old_len == old(room_vec).0@.len(),
            forall|j: int|
                0 <= j < old(room_vec).0@.len() ==> room_vec.0@[j] == old(room_vec).0@[j],
            forall|x: int, y: int|
                old(map).in_bounds(x, y) ==> #[trigger] map.cell(x, y) == stamped_upto(
                    *old(map),
                    room_vec.0@.subrange(old_len, room_vec.0@.len() as int),
                    room_vec.0@.len() - old_len,
                    x,
                    y,
                ),
            forall|j: int|
                0 <= j < k && tree.nodes@[#[trigger] terminals@[j] as int].room is Some
                    ==> exists|m: int|
                    old_len <= m < room_vec.0@.len() && record_matches(
                        #[trigger] room_vec.0@[m],
                        tree.nodes@[terminals@[j] as int].room->0,
                    ),
            terminals@.no_duplicates(),
            seed0 == old(rng).seed@,
            h0 == old(rng).history@,
            forall|m: int|
                old_len <= m < room_vec.0@.len() ==> record_layout_boxed(
                    #[trigger] room_vec.0@[m],
                ) && record_bytes_from(*templates, room_vec.0@[m]),
            rng.history@ == placement_history(
                *old(tree),
                terminals@,
                min_room_size,
                seed0,
                h0,
                k as int,
            ),
            room_vec.0@.len() == old_len + placed_count(
                *old(tree),
                terminals@,
                min_room_size,
                k as int,
            ),
            forall|j: int|
                0 <= j < k ==> {
                    let leaf_rect = old(tree).nodes@[terminals@[j] as int].rect;
                    let h_j = placement_history(*old(tree), terminals@, min_room_size, seed0, h0, j);
                    let room = tree.nodes@[#[trigger] terminals@[j] as int].room;
                    &&& room == placed_room_for(leaf_rect, *templates, min_room_size, seed0, h_j)
                    &&& (room is Some && crate::rng::range_draw(seed0, h_j, 1, 12) > 6 ==> {
                        &&& min_room_size <= room->0.w <= leaf_rect.w - 2
                        &&& min_room_size <= room->0.h <= leaf_rect.h - 2
                    })
                },

            forall|j: int|
                0 <= j < k && placed_room_for(
                    old(tree).nodes@[#[trigger] terminals@[j] as int].rect,
                    *templates,
                    min_room_size,
                    seed0,
                    placement_history(*old(tree), terminals@, min_room_size, seed0, h0, j),
                ) is Some ==> record_content_ok(
                    room_vec.0@[old_len + placed_count(*old(tree), terminals@, min_room_size, j)],
                    old(tree).nodes@[terminals@[j] as int].rect,
                    *templates,
                    min_room_size,
                    seed0,
                    placement_history(*old(tree), terminals@, min_room_size, seed0, h0, j),
                ),
        decreases terminals@.len() - k,
    {
        let t = terminals[k];
        let rect = tree.nodes[t].rect;
        let ghost h_k = rng.history@;
        proof {
            assert(tree.wf_node(t as int));
            assert(rect == old(tree).nodes@[t as int].rect);
            assert(placement_history(*old(tree), terminals@, min_room_size, seed0, h0, k as int + 1)
                == placement_step_history(rect, min_room_size, seed0, h_k));
            assert(placed_count(*old(tree), terminals@, min_room_size, k as int + 1)
                == placed_count(*old(tree), terminals@, min_room_size, k as int) + (
            if rect.w < min_room_size + 2 || rect.h < min_room_size + 2 {
                0int
            } else {
                1int
            }));
        }
        if rect.w < min_room_size + 2 || rect.h < min_room_size + 2 {
            tree.set_room(t, None);
            proof {
                assert(tree.nodes@[t as int].room == placed_room_for(
                    rect,
                    *templates,
                    min_room_size,
                    seed0,
                    h_k,
                ));
                assert forall|j: int|
                    0 <= j < k implies (#[trigger] terminals@[j]) != terminals@[k as int] by {}
            }
        } else {
            let choice = rng.range_usize(1, 12);
            if choice <= 6 {
                // authored template, centered in the leaf, clipped at the
                // grid edge when stamping
                let template = templates.room(choice);
                let tw = template.width;
                let th = template.height;
                let off_x = if rect.w >= tw {
                    (rect.w - tw) / 2
                } else {
                    0
                };
                let off_y = if rect.h >= th {
                    (rect.h - th) / 2
                } else {
                    0
                };
                let tlx = rect.x + off_x;
                let tly = rect.y + off_y;
                let ghost pre_map = *map;
                let ghost pre_records = room_vec.0@;
                write_room(map, template, tlx, tly, room_vec);
                let placed = Rect { x: tlx, y: tly, w: tw, h: th };
                tree.set_room(t, Some(placed));
                proof {
                    lemma_stamp_step(
                        *old(map),
                        pre_map,
                        *map,
                        pre_records,
                        room_vec.0@,
                        old_len,
                        *template,
                        tlx,
                        tly,
                    );
                    assert(record_matches(room_vec.0@[room_vec.0@.len() - 1], placed));
                    assert forall|j: int|
                        0 <= j < k + 1 && tree.nodes@[#[trigger] terminals@[j] as int].room
                            is Some implies exists|m: int|
                        old_len <= m < room_vec.0@.len() && record_matches(
                            #[trigger] room_vec.0@[m],
                            tree.nodes@[terminals@[j] as int].room->0,
                        ) by {
                        let tj = terminals@[j] as int;
                        if tj == t as int {
                            assert(old_len <= room_vec.0@.len() - 1 < room_vec.0@.len()
                                && record_matches(
                                room_vec.0@[room_vec.0@.len() - 1],
                                tree.nodes@[tj].room->0,
                            ));
                        } else {
                            let m = choose|m: int|
                                old_len <= m < pre_records.len() && record_matches(
                                    pre_records[m],
                                    tree.nodes@[tj].room->0,
                                );
                            assert(room_vec.0@[m] == pre_records[m]);
                        }
                    }
                    assert(templates.spec_room(choice as int).wf());
                    if tw + 2 <= rect.w && th + 2 <= rect.h {
                        assert(off_x == (rect.w - tw) / 2);
                        assert(rect.w - tw >= 2);
                        assert(off_x >= 1);
                        assert(off_x + tw <= rect.w - 1);
                        assert(off_y >= 1);
                        assert(off_y + th <= rect.h - 1);
                        assert(room_strictly_inside(placed, rect));
                    }
                    assert(leaf_room_ok(tree.nodes@[t as int], min_room_size as int));
                    assert(*template == templates.spec_room(choice as int));
                    assert(Some(placed) == placed_room_for(
                        rect,
                        *templates,
                        min_room_size,
                        seed0,
                        h_k,
                    ));
                    assert(rng.history@ == placement_step_history(
                        rect,
                        min_room_size,
                        seed0,
                        h_k,
                    ));
                    let cnt_k = placed_count(*old(tree), terminals@, min_room_size, k as int);
                    assert(pre_records.len() == old_len + cnt_k);
                    assert(room_vec.0@[old_len + cnt_k] == room_vec.0@[room_vec.0@.len() - 1]);
                    assert(record_content_ok(
                        room_vec.0@[old_len + cnt_k],
                        rect,
                        *templates,
                        min_room_size,
                        seed0,
                        h_k,
                    ));
                    assert forall|j: int|
                        0 <= j < k implies (#[trigger] terminals@[j]) != terminals@[k as int] by {}
                    assert forall|j: int|
                        0 <= j < k && placed_room_for(
                            old(tree).nodes@[#[trigger] terminals@[j] as int].rect,
                            *templates,
                            min_room_size,
                            seed0,
                            placement_history(*old(tree), terminals@, min_room_size, seed0, h0, j),
                        ) is Some implies record_content_ok(
                        room_vec.0@[old_len + placed_count(
                            *old(tree),
                            terminals@,
                            min_room_size,
                            j,
                        )],
                        old(tree).nodes@[terminals@[j] as int].rect,
                        *templates,
                        min_room_size,
                        seed0,
                        placement_history(*old(tree), terminals@, min_room_size, seed0, h0, j),
                    ) by {
                        let rj = old(tree).nodes@[terminals@[j] as int].rect;
                        assert(rj.w >= min_room_size + 2 && rj.h >= min_room_size + 2);
                        let cnt_j = placed_count(*old(tree), terminals@, min_room_size, j);
                        lemma_placed_count_mono(*old(tree), terminals@, min_room_size, 0, j);
                        assert(placed_count(*old(tree), terminals@, min_room_size, j + 1) == cnt_j
                            + 1);
                        lemma_placed_count_mono(
                            *old(tree),
                            terminals@,
                            min_room_size,
                            j + 1,
                            k as int,
                        );
                        assert(old_len + cnt_j < pre_records.len());
                        assert(room_vec.0@[old_len + cnt_j] == pre_records[old_len + cnt_j]);
                    }
                }
            } else {
                // random rectangle of floor inside the margin box
                let placed = create_random_room(rect, min_room_size, rng);
                let rows = uniform_rows(placed.w, placed.h, FLOOR);
                let layout = RoomLayout { layout: rows, width: placed.w, height: placed.h };
                proof {
                    assert(layout.wf());
                }
                let ghost pre_map = *map;
                let ghost pre_records = room_vec.0@;
                write_room(map, &layout, placed.x, placed.y, room_vec);
                tree.set_room(t, Some(placed));
                proof {
                    lemma_stamp_step(
                        *old(map),
                        pre_map,
                        *map,
                        pre_records,
                        room_vec.0@,
                        old_len,
                        layout,
                        placed.x,
                        placed.y,
                    );
                    assert(record_matches(room_vec.0@[room_vec.0@.len() - 1], placed));
                    assert forall|j: int|
                        0 <= j < k + 1 && tree.nodes@[#[trigger] terminals@[j] as int].room
                            is Some implies exists|m: int|
                        old_len <= m < room_vec.0@.len() && record_matches(
                            #[trigger] room_vec.0@[m],
                            tree.nodes@[terminals@[j] as int].room->0,
                        ) by {
                        let tj = terminals@[j] as int;
                        if tj == t as int {
                            assert(old_len <= room_vec.0@.len() - 1 < room_vec.0@.len()
                                && record_matches(
                                room_vec.0@[room_vec.0@.len() - 1],
                                tree.nodes@[tj].room->0,
                            ));
                        } else {
                            let m = choose|m: int|
                                old_len <= m < pre_records.len() && record_matches(
                                    pre_records[m],
                                    tree.nodes@[tj].room->0,
                                );
                            assert(room_vec.0@[m] == pre_records[m]);
                        }
                    }
                    assert(leaf_room_ok(tree.nodes@[t as int], min_room_size as int));
                    assert(Some(placed) == placed_room_for(
                        rect,
                        *templates,
                        min_room_size,
                        seed0,
                        h_k,
                    ));
                    assert(rng.history@ == placement_step_history(
                        rect,
                        min_room_size,
                        seed0,
                        h_k,
                    ));
                    let cnt_k = placed_count(*old(tree), terminals@, min_room_size, k as int);
                    assert(pre_records.len() == old_len + cnt_k);
                    assert(room_vec.0@[old_len + cnt_k] == room_vec.0@[room_vec.0@.len() - 1]);
                    assert(record_content_ok(
                        room_vec.0@[old_len + cnt_k],
                        rect,
                        *templates,
                        min_room_size,
                        seed0,
                        h_k,
                    ));
                    assert forall|j: int|
                        0 <= j < k implies (#[trigger] terminals@[j]) != terminals@[k as int] by {}
                    assert forall|j: int|
                        0 <= j < k && placed_room_for(
                            old(tree).nodes@[#[trigger] terminals@[j] as int].rect,
                            *templates,
                            min_room_size,
                            seed0,
                            placement_history(*old(tree), terminals@, min_room_size, seed0, h0, j),
                        ) is Some implies record_content_ok(
                        room_vec.0@[old_len + placed_count(
                            *old(tree),
                            terminals@,
                            min_room_size,
                            j,
                        )],
                        old(tree).nodes@[terminals@[j] as int].rect,
                        *templates,
                        min_room_size,
                        seed0,
                        placement_history(*old(tree), terminals@, min_room_size, seed0, h0, j),
                    ) by {
                        let rj = old(tree).nodes@[terminals@[j] as int].rect;
                        assert(rj.w >= min_room_size + 2 && rj.h >= min_room_size + 2);
                        let cnt_j = placed_count(*old(tree), terminals@, min_room_size, j);
                        lemma_placed_count_mono(*old(tree), terminals@, min_room_size, 0, j);
                        assert(placed_count(*old(tree), terminals@, min_room_size, j + 1) == cnt_j
                            + 1);
                        lemma_placed_count_mono(
                            *old(tree),
                            terminals@,
                            min_room_size,
                            j + 1,
                            k as int,
                        );
                        assert(old_len + cnt_j < pre_records.len());
                        assert(room_vec.0@[old_len + cnt_j] == pre_records[old_len + cnt_j]);
                    }
                }
            }
        }
        k = k + 1;
    }
}

/// One stamp extends the overwrite chain by one record: if the grid held
/// the result of the earlier stamps and one more template is stamped and
/// recorded, the grid holds the result of all stamps so far.
proof fn lemma_stamp_step(
    orig: Grid,
    pre_map: Grid,
    cur_map: Grid,
    pre_records: Seq<Room>,
    cur_records: Seq<Room>,
    old_len: int,
    room: RoomLayout,
    tlx: usize,
    tly: usize,
)
    requires
        0 <= old_len <= pre_records.len(),
        cur_records.len() == pre_records.len() + 1,
        forall|i: int| 0 <= i < pre_records.len() ==> cur_records[i] == pre_records[i],
        room.wf(),
        cur_records.last().tile_top_left_corner == (tlx, tly),
        cur_records.last().tile_bot_right_corner.0 == tlx + room.width,
        cur_records.last().tile_bot_right_corner.1 == tly + room.height,
        cur_records.last().layout@.len() == room.layout@.len(),
        forall|j: int|
            0 <= j < room.layout@.len() ==> (#[trigger] cur_records.last().layout@[j])@
                == room.layout@[j]@,
        pre_map.same_dims(orig),
        cur_map.same_dims(orig),
        forall|x: int, y: int|
            orig.in_bounds(x, y) ==> #[trigger] cur_map.cell(x, y) == stamped_cell(
                pre_map,
                room,
                tlx as int,
                tly as int,
                x,
                y,
            ),
        forall|x: int, y: int|
            orig.in_bounds(x, y) ==> #[trigger] pre_map.cell(x, y) == stamped_upto(
                orig,
                pre_records.subrange(old_len, pre_records.len() as int),
                pre_records.len() - old_len,
                x,
                y,
            ),
    ensures
        forall|x: int, y: int|
            orig.in_bounds(x, y) ==> #[trigger] cur_map.cell(x, y) == stamped_upto(
                orig,
                cur_records.subrange(old_len, cur_records.len() as int),
                cur_records.len() - old_len,
                x,
                y,
            ),
{
    let added_pre = pre_records.subrange(old_len, pre_records.len() as int);
    let added_new = cur_records.subrange(old_len, cur_records.len() as int);
    let n1 = cur_records.len() - old_len;
    let r_act = cur_records.last();
    assert forall|x: int, y: int| orig.in_bounds(x, y) implies #[trigger] cur_map.cell(x, y)
        == stamped_upto(orig, added_new, n1, x, y) by {
        assert(added_new[n1 - 1] == r_act);
        if record_covers(r_act, x, y) {
            assert(cur_map.cell(x, y) == stamped_cell(pre_map, room, tlx as int, tly as int, x, y));
            assert(r_act.layout@[y - tly]@ == room.layout@[y - tly]@);
        } else {
            assert(cur_map.cell(x, y) == pre_map.cell(x, y));
            assert(forall|i: int| 0 <= i < n1 - 1 ==> added_pre[i] == #[trigger] added_new[i]);
            lemma_stamped_prefix(orig, added_pre, added_new, n1 - 1, x, y);
        }
    }
}

/// A stamped grid holds, at every tile, either the base grid's byte or a
/// byte of one of the stamped records' layouts: a floor or a template
/// byte.
pub proof fn lemma_stamped_byte(
    g0: Grid,
    records: Seq<Room>,
    templates: RoomRes,
    n: int,
    x: int,
    y: int,
)
    requires
        0 <= n <= records.len(),
        forall|m: int|
            0 <= m < records.len() ==> record_layout_boxed(#[trigger] records[m])
                && record_bytes_from(templates, records[m]),
    ensures
        stamped_upto(g0, records, n, x, y) == g0.cell(x, y) || stamped_upto(g0, records, n, x, y)
            == FLOOR || byte_from_templates(templates, stamped_upto(g0, records, n, x, y)),
    decreases n,
{
    if n > 0 {
        let rec = records[n - 1];
        if record_covers(rec, x, y) {
            assert(record_layout_boxed(rec));
            let j = y - rec.tile_top_left_corner.1;
            let i = x - rec.tile_top_left_corner.0;
            assert(0 <= j < rec.layout@.len());
            assert(0 <= i < rec.layout@[j]@.len());
            assert(rec.layout@[j]@[i] == FLOOR || byte_from_templates(
                templates,
                rec.layout@[j]@[i],
            ));
        } else {
            lemma_stamped_byte(g0, records, templates, n - 1, x, y);
        }
    }
}

/// Coverage: after placement, a listed terminal leaf whose room dimensions
/// fit the margin box holds its room strictly inside the leaf rectangle
/// shrunk by one tile, and a leaf without a room is exactly the
/// undersized case.
pub proof fn lemma_leaf_coverage(tree: BspTree, terminals: Seq<usize>, min_room_size: int, k: int)
    requires
        0 <= k < terminals.len(),
        terminals[k] < tree.nodes@.len(),
        leaf_room_ok(tree.nodes@[terminals[k] as int], min_room_size),
        match tree.nodes@[terminals[k] as int].room {
            Some(r) => r.w + 2 <= tree.nodes@[terminals[k] as int].rect.w && r.h + 2
                <= tree.nodes@[terminals[k] as int].rect.h,
            None => true,
        },
    ensures
        match tree.nodes@[terminals[k] as int].room {
            Some(r) => room_strictly_inside(r, tree.nodes@[terminals[k] as int].rect),
            None => tree.nodes@[terminals[k] as int].rect.w < min_room_size + 2
                || tree.nodes@[terminals[k] as int].rect.h < min_room_size + 2,
        },
{
}

} // verus!
