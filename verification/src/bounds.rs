//! The pixel grid and its row-major layout.

use vstd::prelude::*;

verus! {

/// The dimensions of a pixel grid, in pixels.
#[derive(Clone, Copy, Debug, PartialEq, Eq, Structural)]
pub struct Bounds {
    pub width: usize,
    pub height: usize,
}

/// The position of pixel (`col`, `row`) in a row-major buffer whose rows are
/// `width` pixels long.
pub open spec fn pixel_index(width: int, col: int, row: int) -> int {
    row * width + col
}

/// A pixel of a grid of the given width and height has a position inside the
/// grid's buffer, and the pixel can be read back from its position: the
/// column is the remainder and the row the quotient of the position by the
/// width. So no two pixels share a position.
pub proof fn lemma_pixel_index_in_buffer(width: int, height: int, col: int, row: int)
    requires
        0 <= col < width,
        0 <= row < height,
    ensures
        0 <= pixel_index(width, col, row) < width * height,
        pixel_index(width, col, row) % width == col,
        pixel_index(width, col, row) / width == row,
{
    assert(0 <= row * width && row * width + width <= width * height) by (nonlinear_arith)
        requires
            0 <= row < height,
            0 < width,
    ;
    vstd::arithmetic::div_mod::lemma_fundamental_div_mod_converse(
        row * width + col,
        width,
        row,
        col,
    );
}

/// Every position of the buffer of a grid is that of a pixel of the grid:
/// the one in column `index % width` of row `index / width`.
pub proof fn lemma_position_is_pixel(width: int, height: int, index: int)
    requires
        0 <= width,
        0 <= height,
        0 <= index < width * height,
    ensures
        0 <= index % width < width,
        0 <= index / width < height,
        pixel_index(width, index % width, index / width) == index,
{
    assert(width > 0 && height > 0) by (nonlinear_arith)
        requires
            0 <= index < width * height,
            0 <= width,
            0 <= height,
    ;
    let col = index % width;
    let row = index / width;
    vstd::arithmetic::div_mod::lemma_fundamental_div_mod(index, width);
    assert(0 <= row < height) by (nonlinear_arith)
        requires
            index == width * row + col,
            0 <= col < width,
            0 <= index < width * height,
    ;
    assert(row * width + col == index) by (nonlinear_arith)
        requires
            index == width * row + col,
    ;
}

impl Bounds {
    /// The number of pixels in the grid.
    pub open spec fn area(self) -> int {
        self.width * self.height
    }

    /// Whether a buffer for the grid can be addressed on this machine.
    pub open spec fn fits(self) -> bool {
        self.area() <= usize::MAX
    }

    /// Whether the grid is a well-formed image size: at least one pixel in
    /// each direction, and a buffer that can be addressed.
    pub open spec fn is_valid(self) -> bool {
        &&& self.width > 0
        &&& self.height > 0
        &&& self.fits()
    }

    /// Whether (`col`, `row`) names a pixel of the grid.
    pub open spec fn contains(self, col: int, row: int) -> bool {
        0 <= col < self.width && 0 <= row < self.height
    }

    /// Builds the bounds of an image, or nothing where the size is not
    /// well formed.
    pub fn new(width: usize, height: usize) -> (bounds: Option<Bounds>)
        ensures
            bounds is Some <==> (Bounds { width, height }).is_valid(),
            bounds is Some ==> bounds->0 == (Bounds { width, height }),
    {
        if width == 0 || height == 0 {
            return None;
        }
        match width.checked_mul(height) {
            Some(_) => Some(Bounds { width, height }),
            None => None,
        }
    }

    /// The length of a buffer that holds one byte for each pixel.
    pub fn len(&self) -> (len: usize)
        requires
            self.fits(),
        ensures
            len == self.area(),
    {
        self.width * self.height
    }

    /// The position of pixel (`col`, `row`) in the grid's row-major buffer.
    pub fn index_of(&self, col: usize, row: usize) -> (index: usize)
        requires
            self.fits(),
            self.contains(col as int, row as int),
        ensures
            index == pixel_index(self.width as int, col as int, row as int),
            index < self.area(),
    {
        proof {
            lemma_pixel_index_in_buffer(
                self.width as int,
                self.height as int,
                col as int,
                row as int,
            );
            assert(row * self.width <= row * self.width + col);
        }
        row * self.width + col
    }
}

} // verus!
