//! Screen data.

use vstd::prelude::*;

verus! {

/// The size of the pixel grid.
#[derive(Clone, Copy, Debug, PartialEq, Eq, Structural)]
pub struct Size {
    pub width: u32,
    pub height: u32,
}

impl Size {
    /// The number of cells of the grid.
    pub open spec fn area(self) -> nat {
        (self.width * self.height) as nat
    }

    /// Computes the number of cells of the grid.
    pub fn cell_count(self) -> (count: u64)
        ensures
            count == self.area(),
    {
        assert(self.width * self.height <= 0xffff_ffff * 0xffff_ffff) by (nonlinear_arith)
            requires
                0 <= self.width <= 0xffff_ffff,
                0 <= self.height <= 0xffff_ffff,
        ;
        (self.width as u64) * (self.height as u64)
    }

    /// Whether the cell `(x, y)` lies on the grid.
    pub open spec fn holds(self, x: u32, y: u32) -> bool {
        x < self.width && y < self.height
    }
}

/// The offset of the cell `(x, y)` in a row-major array over a grid that is
/// `width` cells wide.
pub open spec fn cell_index(x: u32, y: u32, width: u32) -> int {
    y * width + x
}

/// The column of the cell at offset `index` of a row-major array.
pub open spec fn cell_x(index: int, width: u32) -> int {
    index % (width as int)
}

/// The row of the cell at offset `index` of a row-major array.
pub open spec fn cell_y(index: int, width: u32) -> int {
    index / (width as int)
}

/// A cell on the grid has an offset below the grid's area, and its column and
/// row are read back from that offset.
pub proof fn lemma_cell_index_on_grid(size: Size, x: u32, y: u32)
    requires
        size.holds(x, y),
    ensures
        0 <= cell_index(x, y, size.width) < size.area(),
        cell_x(cell_index(x, y, size.width), size.width) == x,
        cell_y(cell_index(x, y, size.width), size.width) == y,
{
    let w = size.width as int;
    let h = size.height as int;
    assert(y * w + x < h * w) by (nonlinear_arith)
        requires
            0 <= x < w,
            0 <= y < h,
    ;
    assert(0 <= y * w) by (nonlinear_arith)
        requires
            0 <= y,
            0 <= w,
    ;
    vstd::arithmetic::div_mod::lemma_fundamental_div_mod_converse(y * w + x, w, y as int, x as int);
}

/// An offset below the grid's area is the offset of the cell at its column
/// and row, and that cell lies on the grid.
pub proof fn lemma_cell_of_index(size: Size, index: int)
    requires
        0 <= index < size.area(),
    ensures
        0 <= cell_x(index, size.width) < size.width,
        0 <= cell_y(index, size.width) < size.height,
        cell_index(
            cell_x(index, size.width) as u32,
            cell_y(index, size.width) as u32,
            size.width,
        ) == index,
{
    let w = size.width as int;
    let h = size.height as int;
    assert(w > 0) by (nonlinear_arith)
        requires
            0 <= index < w * h,
            0 <= w,
    ;
    vstd::arithmetic::div_mod::lemma_fundamental_div_mod(index, w);
    vstd::arithmetic::div_mod::lemma_mod_bound(index, w);
    let q = index / w;
    assert(0 <= q < h) by (nonlinear_arith)
        requires
            0 <= index < w * h,
            w > 0,
            index == w * q + index % w,
            0 <= index % w < w,
    ;
    assert(q * w == w * q) by (nonlinear_arith);
}

/// Computes the offset of the cell `(x, y)` in a row-major array over a grid
/// that is `width` cells wide.
pub fn cell_offset(x: u32, y: u32, width: u32) -> (offset: u64)
    ensures
        offset == cell_index(x, y, width),
{
    assert(y * width + x <= 0xffff_ffff * 0xffff_ffff + 0xffff_ffff) by (nonlinear_arith)
        requires
            0 <= x <= 0xffff_ffff,
            0 <= y <= 0xffff_ffff,
            0 <= width <= 0xffff_ffff,
    ;
    (y as u64) * (width as u64) + (x as u64)
}

} // verus!
