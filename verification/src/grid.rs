//! The level tile grid: one ASCII byte per tile, with the byte
//! alphabet, bounds-checked access, and the row serializer.

use vstd::prelude::*;

verus! {

/// Cell holding nothing, the ASCII dot `.`: open space outside rooms and
/// corridors.
pub const EMPTY: u8 = 46;

/// Walkable floor cell, the ASCII hash `#`.
pub const FLOOR: u8 = 35;

/// Wall cell, the ASCII letter `W`, grown around floors.
pub const WALL: u8 = 87;

/// Door cell, the ASCII letter `D`, cut into walls on room perimeters.
pub const DOOR: u8 = 68;

/// Window cell, the ASCII letter `G`, chosen among hull walls.
pub const WINDOW: u8 = 71;

/// Table marker, the ASCII letter `T`, stamped by authored room templates.
pub const TABLE: u8 = 84;

/// The ASCII line feed that ends each serialized row.
pub const NEWLINE: u8 = 10;

/// A rectangular tile map: one ASCII byte per tile, fixed dimensions,
/// mutated in place by every generation pass.
pub struct Grid {
    pub width: usize,
    pub height: usize,
    pub cells: Vec<Vec<u8>>,
}

impl Grid {
    /// The buffer matches the stated dimensions: one row per `y`, each of
    /// length `width`.
    pub open spec fn wf(self) -> bool {
        &&& self.cells@.len() == self.height
        &&& forall|j: int| 0 <= j < self.height ==> (#[trigger] self.cells@[j])@.len() == self.width
    }

    /// The tile at column `x`, row `y`.
    pub open spec fn cell(self, x: int, y: int) -> u8 {
        self.cells@[y]@[x]
    }

    pub open spec fn in_bounds(self, x: int, y: int) -> bool {
        0 <= x < self.width && 0 <= y < self.height
    }

    /// Both grids have the same dimensions.
    pub open spec fn same_dims(self, other: Grid) -> bool {
        self.width == other.width && self.height == other.height
    }

    pub fn new(width: usize, height: usize, fill: u8) -> (g: Grid)
        ensures
            g.wf(),
            g.width == width,
            g.height == height,
            forall|x: int, y: int| g.in_bounds(x, y) ==> g.cell(x, y) == fill,
    {
        let mut cells: Vec<Vec<u8>> = Vec::new();
        let mut y: usize = 0;
        while y < height
            invariant
                y <= height,
                cells@.len() == y,
                forall|j: int| 0 <= j < y ==> (#[trigger] cells@[j])@.len() == width,
                forall|j: int, i: int|
                    0 <= j < y && 0 <= i < width ==> #[trigger] cells@[j]@[i] == fill,
            decreases height - y,
        {
            let mut row: Vec<u8> = Vec::new();
            let mut x: usize = 0;
            while x < width
                invariant
                    x <= width,
                    row@.len() == x,
                    forall|i: int| 0 <= i < x ==> row@[i] == fill,
                decreases width - x,
            {
                row.push(fill);
                x = x + 1;
            }
            cells.push(row);
            y = y + 1;
        }
        Grid { width, height, cells }
    }

    pub fn get(&self, x: usize, y: usize) -> (c: u8)
        requires
            self.wf(),
            self.in_bounds(x as int, y as int),
        ensures
            c == self.cell(x as int, y as int),
    {
        self.cells[y][x]
    }

    pub fn set(&mut self, x: usize, y: usize, c: u8)
        requires
            old(self).wf(),
            old(self).in_bounds(x as int, y as int),
        ensures
            final(self).wf(),
            final(self).same_dims(*old(self)),
            final(self).cell(x as int, y as int) == c,
            forall|px: int, py: int|
                old(self).in_bounds(px, py) && !(px == x && py == y)
                    ==> final(self).cell(px, py) == old(self).cell(px, py),
    {
        self.cells[y][x] = c;
    }

    /// The whole map as one byte buffer: each row of tiles followed by a
    /// newline, rows in top-to-bottom order.
    pub fn serialize(&self) -> (out: Vec<u8>)
        requires
            self.wf(),
            self.height * (self.width + 1) <= usize::MAX,
        ensures
            out@.len() == self.height * (self.width + 1),
            forall|x: int, y: int|
                self.in_bounds(x, y) ==> out@[y * (self.width + 1) + x] == self.cell(x, y),
            forall|y: int|
                0 <= y < self.height
                    ==> #[trigger] out@[y * (self.width + 1) + self.width] == NEWLINE,
    {
        let ghost w = self.width as int;
        let mut out: Vec<u8> = Vec::new();
        let mut y: usize = 0;
        while y < self.height
            invariant
                self.wf(),
                self.height * (w + 1) <= usize::MAX,
                w == self.width,
                y <= self.height,
                out@.len() == y * (w + 1),
                forall|px: int, py: int|
                    0 <= px < self.width && 0 <= py < y
                        ==> out@[py * (w + 1) + px] == self.cell(px, py),
                forall|py: int| 0 <= py < y ==> #[trigger] out@[py * (w + 1) + w] == NEWLINE,
            decreases self.height - y,
        {
            proof {
                lemma_row_base_bounds(w, y as int, self.height as int);
            }
            let mut x: usize = 0;
            while x < self.width
                invariant
                    self.wf(),
                    w == self.width,
                    y < self.height,
                    x <= self.width,
                    y * (w + 1) + w < usize::MAX,
                    out@.len() == y * (w + 1) + x,
                    forall|px: int, py: int|
                        0 <= px < self.width && 0 <= py < y
                            ==> out@[py * (w + 1) + px] == self.cell(px, py),
                    forall|py: int| 0 <= py < y ==> #[trigger] out@[py * (w + 1) + w] == NEWLINE,
                    forall|px: int| 0 <= px < x ==> out@[y * (w + 1) + px] == self.cell(px, y as int),
                decreases self.width - x,
            {
                let c = self.cells[y][x];
                out.push(c);
                proof {
                    lemma_earlier_rows_below(w, y as int);
                }
                x = x + 1;
            }
            out.push(NEWLINE);
            proof {
                lemma_earlier_rows_below(w, y as int);
                assert((y + 1) * (w + 1) == y * (w + 1) + w + 1) by (nonlinear_arith);
            }
            y = y + 1;
        }
        out
    }
}

/// Every index of a row strictly before row `y` lies below the base index
/// of row `y`.
proof fn lemma_earlier_rows_below(w: int, y: int)
    requires
        0 <= w,
        0 <= y,
    ensures
        forall|py: int, px: int|
            0 <= py < y && 0 <= px <= w ==> #[trigger] (py * (w + 1) + px) < y * (w + 1),
{
    assert forall|py: int, px: int|
        0 <= py < y && 0 <= px <= w implies #[trigger] (py * (w + 1) + px) < y * (w + 1) by {
        assert(py * (w + 1) + px < y * (w + 1)) by (nonlinear_arith)
            requires
                0 <= w,
                0 <= py < y,
                0 <= px <= w,
        ;
    }
}

/// The base index of row `y` plus a full row still fits in the serialized
/// buffer of `h` rows.
proof fn lemma_row_base_bounds(w: int, y: int, h: int)
    requires
        0 <= w,
        0 <= y < h,
    ensures
        y * (w + 1) + w < h * (w + 1),
{
    assert(y * (w + 1) + w < h * (w + 1)) by (nonlinear_arith)
        requires
            0 <= w,
            0 <= y < h,
    ;
}

} // verus!
