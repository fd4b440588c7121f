//! The binary space partition: a flat arena of leaves, the seeded
//! split, and the proofs that the terminal leaves tile the root exactly.

use crate::rect::Rect;
use crate::rng::LevelRng;
use vstd::prelude::*;

verus! {

/// One node of the partition tree. Children are arena indices; a node with
/// children is an inner node, a node without children is a terminal leaf
/// and may hold a placed room.
#[derive(Clone, Copy)]
pub struct Leaf {
    pub rect: Rect,
    pub left: Option<usize>,
    pub right: Option<usize>,
    pub room: Option<Rect>,
}

/// The parent rectangle is cut along a horizontal line into a top part `a`
/// and a bottom part `b`, with no gap and no overlap.
pub open spec fn splits_top_bottom(parent: Rect, a: Rect, b: Rect) -> bool {
    &&& a.x == parent.x && a.y == parent.y && a.w == parent.w
    &&& b.x == parent.x && b.w == parent.w
    &&& b.y == a.y + a.h
    &&& a.h + b.h == parent.h
    &&& a.h >= 1 && b.h >= 1
}

/// The parent rectangle is cut along a vertical line into a left part `a`
/// and a right part `b`, with no gap and no overlap.
pub open spec fn splits_left_right(parent: Rect, a: Rect, b: Rect) -> bool {
    &&& a.x == parent.x && a.y == parent.y && a.h == parent.h
    &&& b.y == parent.y && b.h == parent.h
    &&& b.x == a.x + a.w
    &&& a.w + b.w == parent.w
    &&& a.w >= 1 && b.w >= 1
}

/// The rectangles `a` and `b` partition `parent` exactly.
pub open spec fn splits(parent: Rect, a: Rect, b: Rect) -> bool {
    splits_top_bottom(parent, a, b) || splits_left_right(parent, a, b)
}

/// An exact partition is pointwise: a tile is in the parent exactly when it
/// is in one of the two parts, and never in both.
pub proof fn lemma_splits_pointwise(parent: Rect, a: Rect, b: Rect, px: int, py: int)
    requires
        splits(parent, a, b),
    ensures
        parent.contains(px, py) <==> (a.contains(px, py) || b.contains(px, py)),
        !(a.contains(px, py) && b.contains(px, py)),
{
}

/// The whole partition tree, stored as a flat arena. Children always come
/// after their parent, so every walk toward the leaves terminates.
pub struct BspTree {
    pub nodes: Vec<Leaf>,
}

impl BspTree {
    /// Well-formedness of one node: children (always both or neither) are
    /// in-arena indices after the node, their rectangles partition the
    /// node's rectangle, inner nodes hold no room, and the rectangle is
    /// non-degenerate with coordinates that stay within machine bounds.
    pub open spec fn wf_node(self, i: int) -> bool {
        let n = self.nodes@[i];
        &&& n.rect.w >= 1 && n.rect.h >= 1
        &&& n.rect.right() <= usize::MAX && n.rect.bottom() <= usize::MAX
        &&& match (n.left, n.right) {
            (Some(l), Some(r)) => {
                &&& i < l < self.nodes@.len()
                &&& i < r < self.nodes@.len()
                &&& l != r
                &&& splits(n.rect, self.nodes@[l as int].rect, self.nodes@[r as int].rect)
                &&& n.room is None
            },
            (None, None) => true,
            _ => false,
        }
    }

    pub open spec fn wf(self) -> bool {
        forall|i: int| 0 <= i < self.nodes@.len() ==> #[trigger] self.wf_node(i)
    }

    /// The node at `i` is a terminal leaf.
    pub open spec fn is_terminal(self, i: int) -> bool {
        self.nodes@[i].left is None && self.nodes@[i].right is None
    }

    /// The tile `(px, py)` lies in the rectangle of some terminal leaf of
    /// the subtree rooted at `i`.
    pub open spec fn covered(self, i: int, px: int, py: int) -> bool
        decreases self.nodes@.len() - i,
        when self.wf() && 0 <= i < self.nodes@.len()
        via Self::covered_decreases
    {
        match (self.nodes@[i].left, self.nodes@[i].right) {
            (Some(l), Some(r)) => self.covered(l as int, px, py) || self.covered(
                r as int,
                px,
                py,
            ),
            _ => self.nodes@[i].rect.contains(px, py),
        }
    }

    #[via_fn]
    proof fn covered_decreases(self, i: int, px: int, py: int) {
        assert(self.wf_node(i));
    }

    /// Exact tiling: a tile is covered by the terminal leaves of a subtree
    /// exactly when it lies in the subtree root's rectangle, so the
    /// terminal rectangles leave no gap and cover nothing outside the root.
    pub proof fn lemma_covered_iff_contained(self, i: int, px: int, py: int)
        requires
            self.wf(),
            0 <= i < self.nodes@.len(),
        ensures
            self.covered(i, px, py) <==> self.nodes@[i].rect.contains(px, py),
        decreases self.nodes@.len() - i,
    {
        assert(self.wf_node(i));
        match (self.nodes@[i].left, self.nodes@[i].right) {
            (Some(l), Some(r)) => {
                self.lemma_covered_iff_contained(l as int, px, py);
                self.lemma_covered_iff_contained(r as int, px, py);
                lemma_splits_pointwise(
                    self.nodes@[i].rect,
                    self.nodes@[l as int].rect,
                    self.nodes@[r as int].rect,
                    px,
                    py,
                );
            },
            _ => {},
        }
    }

    /// Non-overlap: the two subtrees under an inner node cover disjoint
    /// tiles, so no two terminal leaves of different sides share a tile.
    pub proof fn lemma_sibling_coverage_disjoint(self, i: int, px: int, py: int)
        requires
            self.wf(),
            0 <= i < self.nodes@.len(),
            self.nodes@[i].left is Some,
            self.nodes@[i].right is Some,
        ensures
            !(self.covered(self.nodes@[i].left->0 as int, px, py) && self.covered(
                self.nodes@[i].right->0 as int,
                px,
                py,
            )),
    {
        assert(self.wf_node(i));
        let l = self.nodes@[i].left->0 as int;
        let r = self.nodes@[i].right->0 as int;
        self.lemma_covered_iff_contained(l, px, py);
        self.lemma_covered_iff_contained(r, px, py);
        lemma_splits_pointwise(self.nodes@[i].rect, self.nodes@[l].rect, self.nodes@[r].rect, px, py);
    }

    /// A fresh tree holding one terminal root covering `root` and no room.
    pub fn new(root: Rect) -> (t: BspTree)
        requires
            root.w >= 1,
            root.h >= 1,
            root.right() <= usize::MAX,
            root.bottom() <= usize::MAX,
        ensures
            t.wf(),
            t.nodes@.len() == 1,
            t.nodes@[0].rect == root,
            t.is_terminal(0),
            t.nodes@[0].room is None,
    {
        let mut nodes: Vec<Leaf> = Vec::new();
        nodes.push(Leaf { rect: root, left: None, right: None, room: None });
        BspTree { nodes }
    }
}

impl BspTree {
    /// No node of the tree holds a room yet (the state during tree
    /// construction, before room placement).
    pub open spec fn rooms_clear(self) -> bool {
        forall|j: int| 0 <= j < self.nodes@.len() ==> (#[trigger] self.nodes@[j]).room is None
    }

    /// What the attempt loop of one split does with `attempts` tries
    /// left: each try draws an orientation, and when the drawn axis has
    /// room for the minimum leaf on both sides a cut offset is drawn and
    /// the two halves are made, otherwise the next try runs. Both the
    /// outcome and the final request history are functions of the seed
    /// and the history, which is what makes the tree reproducible.
    pub open spec fn split_attempts(
        rect: Rect,
        min_leaf_size: usize,
        seed: u64,
        history: Seq<(int, int, int)>,
        attempts: nat,
    ) -> (Option<(Rect, Rect)>, Seq<(int, int, int)>)
        decreases attempts,
    {
        if attempts == 0 {
            (None, history)
        } else {
            let dir = crate::rng::range_draw(seed, history, 0, 1);
            let h1 = history.push((0int, 0int, 1int));
            if dir == 0 && rect.h > min_leaf_size * 2 {
                let cut = crate::rng::range_draw(
                    seed,
                    h1,
                    min_leaf_size,
                    (rect.h - min_leaf_size) as usize,
                );
                let h2 = h1.push((0int, min_leaf_size as int, rect.h - min_leaf_size));
                (
                    Some(
                        (
                            Rect { x: rect.x, y: rect.y, w: rect.w, h: cut },
                            Rect {
                                x: rect.x,
                                y: (rect.y + cut) as usize,
                                w: rect.w,
                                h: (rect.h - cut) as usize,
                            },
                        ),
                    ),
                    h2,
                )
            } else if dir == 1 && rect.w > min_leaf_size * 2 {
                let cut = crate::rng::range_draw(
                    seed,
                    h1,
                    min_leaf_size,
                    (rect.w - min_leaf_size) as usize,
                );
                let h2 = h1.push((0int, min_leaf_size as int, rect.w - min_leaf_size));
                (
                    Some(
                        (
                            Rect { x: rect.x, y: rect.y, w: cut, h: rect.h },
                            Rect {
                                x: (rect.x + cut) as usize,
                                y: rect.y,
                                w: (rect.w - cut) as usize,
                                h: rect.h,
                            },
                        ),
                    ),
                    h2,
                )
            } else {
                Self::split_attempts(rect, min_leaf_size, seed, h1, (attempts - 1) as nat)
            }
        }
    }

    /// Split the terminal leaf at `i` into two children partitioning its
    /// rectangle, drawing the orientation and the split offset from the
    /// seeded generator. Up to `max_attempts` orientations are tried; the
    /// leaf is left unchanged when none fits, when it is already split, or
    /// when both axes are at most twice the minimum leaf size. When both
    /// axes exceed twice the minimum leaf size, whichever orientation is
    /// drawn fits, so the very first attempt splits the leaf.
    pub fn split(
        &mut self,
        i: usize,
        rng: &mut LevelRng,
        min_leaf_size: usize,
        max_attempts: usize,
    ) -> (did: bool)
        requires
            old(self).wf(),
            i < old(self).nodes@.len(),
            old(self).nodes@[i as int].room is None,
            min_leaf_size >= 1,
            min_leaf_size <= usize::MAX / 2,
        ensures
            final(self).wf(),
            final(rng).seed@ == old(rng).seed@,
            !did ==> *final(self) == *old(self),
            !old(self).is_terminal(i as int) ==> !did && *final(rng) == *old(rng),
            (old(self).is_terminal(i as int) && old(self).nodes@[i as int].rect.w <= min_leaf_size
                * 2 && old(self).nodes@[i as int].rect.h <= min_leaf_size * 2)
                ==> !did && *final(rng) == *old(rng),
            (max_attempts >= 1 && old(self).is_terminal(i as int) && old(
                self,
            ).nodes@[i as int].rect.w > min_leaf_size * 2 && old(self).nodes@[i as int].rect.h
                > min_leaf_size * 2) ==> did,
            (old(self).is_terminal(i as int) && (old(self).nodes@[i as int].rect.w > min_leaf_size
                * 2 || old(self).nodes@[i as int].rect.h > min_leaf_size * 2)) ==> {
                let outcome = Self::split_attempts(
                    old(self).nodes@[i as int].rect,
                    min_leaf_size,
                    old(rng).seed@,
                    old(rng).history@,
                    max_attempts as nat,
                );
                &&& did == (outcome.0 is Some)
                &&& final(rng).history@ == outcome.1
                &&& (did ==> final(self).nodes@[old(self).nodes@.len() as int].rect == (
                outcome.0->0).0 && final(self).nodes@[old(self).nodes@.len() as int + 1].rect == (
                outcome.0->0).1)
            },
            did ==> {
                let oldlen = old(self).nodes@.len() as int;
                &&& old(self).is_terminal(i as int)
                &&& (old(self).nodes@[i as int].rect.w > min_leaf_size * 2 || old(
                    self,
                ).nodes@[i as int].rect.h > min_leaf_size * 2)
                &&& final(self).nodes@.len() == oldlen + 2
                &&& forall|j: int|
                    0 <= j < oldlen && j != i ==> final(self).nodes@[j] == old(self).nodes@[j]
                &&& final(self).nodes@[i as int].rect == old(self).nodes@[i as int].rect
                &&& final(self).nodes@[i as int].room is None
                &&& final(self).nodes@[i as int].left is Some
                &&& final(self).nodes@[i as int].left->0 as int == old(self).nodes@.len()
                &&& final(self).nodes@[i as int].right is Some
                &&& final(self).nodes@[i as int].right->0 as int == old(self).nodes@.len() + 1
                &&& final(self).is_terminal(oldlen)
                &&& final(self).is_terminal(oldlen + 1)
                &&& final(self).nodes@[oldlen].room is None
                &&& final(self).nodes@[oldlen + 1].room is None
                &&& splits(
                    old(self).nodes@[i as int].rect,
                    final(self).nodes@[oldlen].rect,
                    final(self).nodes@[oldlen + 1].rect,
                )
                &&& {
                    let p = old(self).nodes@[i as int].rect;
                    let ca = final(self).nodes@[oldlen].rect;
                    let cb = final(self).nodes@[oldlen + 1].rect;
                    &&& (ca.w >= min_leaf_size || ca.w == p.w)
                    &&& (ca.h >= min_leaf_size || ca.h == p.h)
                    &&& (cb.w >= min_leaf_size || cb.w == p.w)
                    &&& (cb.h >= min_leaf_size || cb.h == p.h)
                }
            },
    {
        let n = self.nodes[i];
        if n.left.is_some() || n.right.is_some() {
            return false;
        }
        let w = n.rect.w;
        let h = n.rect.h;
        if w <= min_leaf_size * 2 && h <= min_leaf_size * 2 {
            return false;
        }
        proof {
            assert(self.wf_node(i as int));
        }
        let mut attempt: usize = 0;
        while attempt < max_attempts
            invariant
                *self == *old(self),
                self.wf(),
                rng.seed@ == old(rng).seed@,
                i < self.nodes@.len(),
                min_leaf_size >= 1,
                min_leaf_size <= usize::MAX / 2,
                n == self.nodes@[i as int],
                n.left is None,
                n.right is None,
                n.room is None,
                w == n.rect.w,
                h == n.rect.h,
                w > min_leaf_size * 2 || h > min_leaf_size * 2,
                attempt > 0 ==> !(w > min_leaf_size * 2 && h > min_leaf_size * 2),
                attempt <= max_attempts,
                Self::split_attempts(
                    n.rect,
                    min_leaf_size,
                    old(rng).seed@,
                    old(rng).history@,
                    max_attempts as nat,
                ) == Self::split_attempts(
                    n.rect,
                    min_leaf_size,
                    rng.seed@,
                    rng.history@,
                    (max_attempts - attempt) as nat,
                ),
            decreases max_attempts - attempt,
        {
            proof {
                assert(self.wf_node(i as int));
            }
            let dir = rng.range_usize(0, 1);
            if dir == 0 && h > min_leaf_size * 2 {
                let cut = rng.range_usize(min_leaf_size, h - min_leaf_size);
                let a = Rect { x: n.rect.x, y: n.rect.y, w, h: cut };
                let b = Rect { x: n.rect.x, y: n.rect.y + cut, w, h: h - cut };
                self.attach_children(i, a, b);
                return true;
            } else if dir == 1 && w > min_leaf_size * 2 {
                let cut = rng.range_usize(min_leaf_size, w - min_leaf_size);
                let a = Rect { x: n.rect.x, y: n.rect.y, w: cut, h };
                let b = Rect { x: n.rect.x + cut, y: n.rect.y, w: w - cut, h };
                self.attach_children(i, a, b);
                return true;
            }
            attempt = attempt + 1;
        }
        false
    }

    /// Append the two freshly cut halves as children of the leaf at `i`.
    fn attach_children(&mut self, i: usize, a: Rect, b: Rect)
        requires
            old(self).wf(),
            i < old(self).nodes@.len(),
            old(self).is_terminal(i as int),
            old(self).nodes@[i as int].room is None,
            splits(old(self).nodes@[i as int].rect, a, b),
        ensures
            final(self).wf(),
            final(self).nodes@.len() == old(self).nodes@.len() + 2,
            forall|j: int|
                0 <= j < old(self).nodes@.len() && j != i ==> final(self).nodes@[j] == old(
                    self,
                ).nodes@[j],
            final(self).nodes@[i as int].rect == old(self).nodes@[i as int].rect,
            final(self).nodes@[i as int].room is None,
            final(self).nodes@[i as int].left is Some,
            final(self).nodes@[i as int].left->0 as int == old(self).nodes@.len(),
            final(self).nodes@[i as int].right is Some,
            final(self).nodes@[i as int].right->0 as int == old(self).nodes@.len() + 1,
            final(self).is_terminal(old(self).nodes@.len() as int),
            final(self).is_terminal(old(self).nodes@.len() as int + 1),
            final(self).nodes@[old(self).nodes@.len() as int].room is None,
            final(self).nodes@[old(self).nodes@.len() as int + 1].room is None,
            final(self).nodes@[old(self).nodes@.len() as int].rect == a,
            final(self).nodes@[old(self).nodes@.len() as int + 1].rect == b,
    {
        proof {
            assert(self.wf_node(i as int));
        }
        let ghost pre = *self;
        let li = self.nodes.len();
        self.nodes.push(Leaf { rect: a, left: None, right: None, room: None });
        let ri = self.nodes.len();
        self.nodes.push(Leaf { rect: b, left: None, right: None, room: None });
        let mut node = self.nodes[i];
        node.left = Some(li);
        node.right = Some(ri);
        self.nodes[i] = node;
        proof {
            assert forall|j: int| 0 <= j < self.nodes@.len() implies self.wf_node(j) by {
                if j < pre.nodes@.len() {
                    assert(pre.wf_node(j));
                }
            }
        }
    }
}

impl BspTree {
    /// Depth-first construction: try to split the leaf at `i`; on success
    /// recurse into both children (left first, matching the order in which
    /// the generator is consumed), otherwise record the leaf as terminal.
    pub fn split_leaf_recursive(
        &mut self,
        i: usize,
        rng: &mut LevelRng,
        min_leaf_size: usize,
        max_attempts: usize,
        terminals: &mut Vec<usize>,
    )
        requires
            old(self).wf(),
            old(self).rooms_clear(),
            i < old(self).nodes@.len(),
            old(self).is_terminal(i as int),
            min_leaf_size >= 1,
            min_leaf_size <= usize::MAX / 2,
            old(terminals)@.no_duplicates(),
            forall|k: int|
                0 <= k < old(terminals)@.len() ==> (#[trigger] old(terminals)@[k]) as int != i
                    && (old(terminals)@[k] as int) < old(self).nodes@.len(),
        ensures
            final(self).wf(),
            final(self).rooms_clear(),
            final(rng).seed@ == old(rng).seed@,
            final(self).nodes@.len() >= old(self).nodes@.len(),
            forall|j: int|
                0 <= j < old(self).nodes@.len() && j != i ==> final(self).nodes@[j] == old(
                    self,
                ).nodes@[j],
            final(self).nodes@[i as int].rect == old(self).nodes@[i as int].rect,
            forall|j: int|
                old(self).nodes@.len() <= j < final(self).nodes@.len()
                    ==> (#[trigger] final(self).nodes@[j]).rect.within(
                    old(self).nodes@[i as int].rect,
                ),
            forall|j: int|
                old(self).nodes@.len() <= j < final(self).nodes@.len() ==> {
                    let rj = (#[trigger] final(self).nodes@[j]).rect;
                    &&& (rj.w >= min_leaf_size || rj.w >= old(self).nodes@[i as int].rect.w)
                    &&& (rj.h >= min_leaf_size || rj.h >= old(self).nodes@[i as int].rect.h)
                },
            final(terminals)@.len() >= old(terminals)@.len() + 1,
            (max_attempts >= 1 && old(self).nodes@[i as int].rect.w > min_leaf_size * 2 && old(
                self,
            ).nodes@[i as int].rect.h > min_leaf_size * 2) ==> final(terminals)@.len() >= old(
                terminals,
            )@.len() + 2,
            forall|k: int|
                0 <= k < old(terminals)@.len() ==> final(terminals)@[k] == old(terminals)@[k],
            forall|k: int|
                old(terminals)@.len() <= k < final(terminals)@.len() ==> {
                    let t = #[trigger] final(terminals)@[k] as int;
                    &&& 0 <= t < final(self).nodes@.len()
                    &&& final(self).is_terminal(t)
                    &&& (t == i || t >= old(self).nodes@.len())
                },
            final(terminals)@.no_duplicates(),
            forall|j: int|
                (j == i || old(self).nodes@.len() <= j < final(self).nodes@.len())
                    && final(self).is_terminal(j) ==> exists|k: int|
                    old(terminals)@.len() <= k < final(terminals)@.len()
                        && (#[trigger] final(terminals)@[k]) as int == j,
        decreases self.nodes@[i as int].rect.area(),
    {
        proof {
            assert(self.wf_node(i as int));
        }
        let did = self.split(i, rng, min_leaf_size, max_attempts);
        if did {
            let ghost split_state = *self;
            let node = self.nodes[i];
            let (l, r) = match (node.left, node.right) {
                (Some(l), Some(r)) => (l, r),
                _ => {
                    proof {
                        assert(false);
                    }
                    (0, 0)
                },
            };
            proof {
                assert(self.wf_node(i as int));
                assert(l as int == old(self).nodes@.len());
                assert(r as int == old(self).nodes@.len() + 1);
                lemma_split_areas(
                    self.nodes@[i as int].rect,
                    self.nodes@[l as int].rect,
                    self.nodes@[r as int].rect,
                );
            }
            self.split_leaf_recursive(l, rng, min_leaf_size, max_attempts, terminals);
            proof {
                assert(r != l && (r as int) < split_state.nodes@.len());
                assert(self.nodes@[r as int] == split_state.nodes@[r as int]);
                assert(self.is_terminal(r as int));
                lemma_split_areas(
                    self.nodes@[i as int].rect,
                    split_state.nodes@[l as int].rect,
                    self.nodes@[r as int].rect,
                );
            }
            let ghost mid_terminals = terminals@;
            let ghost mid_state = *self;
            proof {
                assert forall|k: int|
                    0 <= k < mid_terminals.len() implies (#[trigger] mid_terminals[k]) as int
                    != r as int && (mid_terminals[k] as int) < mid_state.nodes@.len() by {
                    let t = mid_terminals[k] as int;
                    if k < old(terminals)@.len() {
                        assert(t < old(self).nodes@.len());
                    } else {
                        assert(t == l as int || t >= split_state.nodes@.len());
                    }
                }
            }
            self.split_leaf_recursive(r, rng, min_leaf_size, max_attempts, terminals);
            proof {
                assert forall|k: int|
                    old(terminals)@.len() <= k < terminals@.len() implies {
                    let t = #[trigger] terminals@[k] as int;
                    &&& 0 <= t < self.nodes@.len()
                    &&& self.is_terminal(t)
                    &&& (t == i || t >= old(self).nodes@.len())
                } by {
                    let t = terminals@[k] as int;
                    if k < mid_terminals.len() {
                        assert(terminals@[k] == mid_terminals[k]);
                        assert(mid_state.is_terminal(t));
                        assert(t == l as int || t >= split_state.nodes@.len());
                        assert(t != r as int);
                        assert(t < mid_state.nodes@.len());
                        assert(self.nodes@[t] == mid_state.nodes@[t]);
                    }
                }
                assert forall|j: int|
                    (j == i as int || old(self).nodes@.len() <= j < self.nodes@.len())
                        && self.is_terminal(j) implies exists|k: int|
                    old(terminals)@.len() <= k < terminals@.len() && (#[trigger] terminals@[k]) as int
                        == j by {
                    if j == i as int {
                        // the split gave this node children, and neither
                        // recursion touches it again
                        assert(split_state.nodes@[j].left is Some);
                        assert(mid_state.nodes@[j] == split_state.nodes@[j]);
                        assert(self.nodes@[j] == mid_state.nodes@[j]);
                        assert(false);
                    } else if j == r as int || mid_state.nodes@.len() <= j {
                        let k = choose|k: int|
                            mid_terminals.len() <= k < terminals@.len() && (
                            #[trigger] terminals@[k]) as int == j;
                        assert(old(terminals)@.len() <= k < terminals@.len() && terminals@[k] as int
                            == j);
                    } else {
                        // a terminal of the left subtree: unchanged by the
                        // right recursion, so the left call listed it
                        assert(j != r as int && j < mid_state.nodes@.len());
                        assert(mid_state.nodes@[j] == self.nodes@[j]);
                        assert(mid_state.is_terminal(j));
                        assert(j == l as int || split_state.nodes@.len() <= j);
                        let k = choose|k: int|
                            old(terminals)@.len() <= k < mid_terminals.len() && (
                            #[trigger] mid_terminals[k]) as int == j;
                        assert(terminals@[k] == mid_terminals[k]);
                    }
                }
            }
        } else {
            let ghost before = terminals@;
            terminals.push(i);
            proof {
                assert(terminals@[terminals@.len() - 1] == i);
                assert(terminals@.no_duplicates()) by {
                    assert forall|k1: int, k2: int|
                        0 <= k1 < terminals@.len() && 0 <= k2 < terminals@.len() && k1
                        != k2 implies terminals@[k1] != terminals@[k2] by {
                        if k1 < before.len() && k2 < before.len() {
                            assert(before[k1] != before[k2]);
                        }
                    }
                }
            }
        }
    }
}

/// Both parts of an exact partition of a non-degenerate rectangle have a
/// strictly smaller area.
pub proof fn lemma_split_areas(parent: Rect, a: Rect, b: Rect)
    requires
        splits(parent, a, b),
        parent.w >= 1,
        parent.h >= 1,
    ensures
        a.area() < parent.area(),
        b.area() < parent.area(),
{
    if splits_top_bottom(parent, a, b) {
        assert(a.area() < parent.area() && b.area() < parent.area()) by (nonlinear_arith)
            requires
                a.w == parent.w,
                b.w == parent.w,
                a.h + b.h == parent.h,
                a.h >= 1,
                b.h >= 1,
                parent.w >= 1,
                a.area() == a.w * a.h,
                b.area() == b.w * b.h,
                parent.area() == parent.w * parent.h,
        ;
    } else {
        assert(a.area() < parent.area() && b.area() < parent.area()) by (nonlinear_arith)
            requires
                a.h == parent.h,
                b.h == parent.h,
                a.w + b.w == parent.w,
                a.w >= 1,
                b.w >= 1,
                parent.h >= 1,
                a.area() == a.w * a.h,
                b.area() == b.w * b.h,
                parent.area() == parent.w * parent.h,
        ;
    }
}

} // verus!
