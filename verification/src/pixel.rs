//! Pixel data.

use crate::screen::{cell_x, cell_y, Size};
use vstd::prelude::*;

verus! {

/// A complex number in single precision, each part held as the bits of its
/// IEEE 754 encoding. The host never computes with these numbers: it only
/// carries them between the point store, the work list and the device.
#[derive(Clone, Copy, Debug, PartialEq, Eq, Structural)]
pub struct Complex {
    pub real_bits: u32,
    pub imaginary_bits: u32,
}

impl Complex {
    /// The number `0 + 0i`.
    pub open spec fn spec_zero() -> Complex {
        Complex { real_bits: 0, imaginary_bits: 0 }
    }

    /// The number `0 + 0i`.
    #[verifier::when_used_as_spec(spec_zero)]
    pub fn zero() -> (z: Complex)
        ensures
            z == Complex::spec_zero(),
    {
        Complex { real_bits: 0, imaginary_bits: 0 }
    }
}

/// Pixel data for rendering fractals: a point of the grid with the state of
/// its escape-time iteration.
#[derive(Clone, Copy, Debug, PartialEq, Eq, Structural)]
pub struct Pixel {
    pub x: u32,
    pub y: u32,
    /// `1` once the iterate has diverged, `0` before.
    pub escaped: u32,
    pub current_value: Complex,
    pub iteration_count: u32,
}

impl Pixel {
    /// The offset of this pixel in a row-major array over a grid that is
    /// `width` cells wide.
    pub open spec fn index(self, width: u32) -> int {
        crate::screen::cell_index(self.x, self.y, width)
    }
}

/// The size in bytes of one pixel record in a device buffer: six words of four
/// bytes each.
pub const PIXEL_BYTES: u64 = 24;

/// The pixel at `(x, y)` before its first iteration.
pub open spec fn fresh_pixel(x: u32, y: u32) -> Pixel {
    Pixel { x, y, escaped: 0, current_value: Complex::zero(), iteration_count: 0 }
}

/// The fresh pixel that belongs at offset `index` of a row-major array over a
/// grid that is `width` cells wide.
pub open spec fn fresh_pixel_at(index: int, width: u32) -> Pixel {
    fresh_pixel(cell_x(index, width) as u32, cell_y(index, width) as u32)
}

/// The pixels of a fresh grid of the given size, in row-major order.
pub open spec fn fresh_pixels(size: Size) -> Seq<Pixel> {
    Seq::new(size.area(), |i: int| fresh_pixel_at(i, size.width))
}

/// Creates the pixels of a grid of the given size, in row-major order, none of
/// them iterated yet.
pub fn create_pixels(size: Size) -> (pixels: Vec<Pixel>)
    requires
        size.area() <= usize::MAX,
    ensures
        pixels@ == fresh_pixels(size),
{
    let mut pixels: Vec<Pixel> = Vec::new();
    let mut y: u32 = 0;
    while y < size.height
        invariant
            y <= size.height,
            size.area() <= usize::MAX,
            pixels@.len() == y * size.width,
            forall|i: int| 0 <= i < pixels@.len() ==> pixels@[i] == fresh_pixel_at(i, size.width),
        decreases size.height - y,
    {
        let mut x: u32 = 0;
        while x < size.width
            invariant
                y < size.height,
                x <= size.width,
                size.area() <= usize::MAX,
                pixels@.len() == y * size.width + x,
                forall|i: int|
                    0 <= i < pixels@.len() ==> pixels@[i] == fresh_pixel_at(i, size.width),
            decreases size.width - x,
        {
            proof {
                crate::screen::lemma_cell_index_on_grid(size, x, y);
            }
            pixels.push(
                Pixel { x, y, current_value: Complex::zero(), escaped: 0, iteration_count: 0 },
            );
            x = x + 1;
        }
        assert((y + 1) * size.width == y * size.width + size.width) by (nonlinear_arith);
        y = y + 1;
    }
    assert(size.height * size.width == size.width * size.height) by (nonlinear_arith);
    assert(pixels@ =~= fresh_pixels(size));
    pixels
}

} // verus!
