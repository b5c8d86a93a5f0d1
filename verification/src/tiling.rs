//! How the bands of an image tile its buffer, and why rendering band by band
//! gives the same image as rendering it whole.

use vstd::prelude::*;
use crate::bands::{
    band_at, band_top, lemma_band_at, lemma_band_rows, lemma_band_top_monotone,
    lemma_bands_reach_bottom, lemma_bands_tile_rows, rows_per_band, some_band_has_row, Band,
};
use crate::bounds::{lemma_position_is_pixel, pixel_index, Bounds};
use crate::raster::image_of;

verus! {

/// Whether one of the `workers` bands of the image `bounds` holds position
/// `index` of the buffer.
pub open spec fn some_band_has_byte(bounds: Bounds, workers: int, index: int) -> bool {
    exists|i: int| 0 <= i < workers && #[trigger] band_at(bounds, workers, i).has_byte(index)
}

/// The byte ranges of the bands follow one another through the buffer: the
/// first begins at the buffer's first byte, band `i + 1` begins where band
/// `i` ends, and the last ends with the buffer.
pub proof fn lemma_bands_are_consecutive(bounds: Bounds, workers: int, i: int)
    requires
        bounds.fits(),
        1 <= workers,
        0 <= i,
    ensures
        band_at(bounds, workers, 0).start == 0,
        band_at(bounds, workers, i).start <= band_at(bounds, workers, i).end,
        band_at(bounds, workers, i).end == band_at(bounds, workers, i + 1).start,
        band_at(bounds, workers, workers - 1).end == bounds.area(),
{
    let height = bounds.height as int;
    let width = bounds.width as int;
    lemma_band_at(bounds, workers, 0);
    lemma_band_rows(bounds, workers, 0);
    lemma_band_at(bounds, workers, i);
    lemma_band_rows(bounds, workers, i);
    lemma_band_at(bounds, workers, i + 1);
    lemma_band_rows(bounds, workers, i + 1);
    lemma_band_at(bounds, workers, workers - 1);
    lemma_band_rows(bounds, workers, workers - 1);
    assert(band_top(height, workers, 0) == 0) by {
        assert(0 * rows_per_band(height, workers) == 0) by (nonlinear_arith);
    }
    assert(0 * width == 0) by (nonlinear_arith);
    let band = band_at(bounds, workers, i);
    assert(band.top * width <= (band.top + band.rows) * width) by (nonlinear_arith)
        requires
            0 <= band.top,
            0 <= band.rows,
            0 <= width,
    ;
    lemma_bands_reach_bottom(height, workers);
    assert(height * width == width * height) by (nonlinear_arith);
}

/// The bands of an image split its buffer: every band's bytes lie inside
/// the buffer, every byte of the buffer is in one of the bands, and no byte
/// is in two.
pub proof fn lemma_bands_tile_buffer(bounds: Bounds, workers: int)
    requires
        bounds.fits(),
        1 <= workers,
    ensures
        forall|i: int, index: int|
            0 <= i < workers && #[trigger] band_at(bounds, workers, i).has_byte(index) ==> 0
                <= index < bounds.area(),
        forall|index: int|
            0 <= index < bounds.area() ==> #[trigger] some_band_has_byte(bounds, workers, index),
        forall|i: int, j: int, index: int|
            0 <= i < workers && 0 <= j < workers && #[trigger] band_at(bounds, workers, i).has_byte(
                index,
            ) && #[trigger] band_at(bounds, workers, j).has_byte(index) ==> i == j,
{
    let height = bounds.height as int;
    let width = bounds.width as int;
    lemma_bands_tile_rows(bounds, workers);
    assert forall|i: int, index: int|
        0 <= i < workers && #[trigger] band_at(bounds, workers, i).has_byte(index) implies 0
        <= index < bounds.area() by {
        lemma_band_at(bounds, workers, i);
        lemma_band_rows(bounds, workers, i);
        let band = band_at(bounds, workers, i);
        assert(0 <= band.top * width && (band.top + band.rows) * width <= width * height)
            by (nonlinear_arith)
            requires
                0 <= band.top,
                band.top + band.rows <= height,
                0 <= width,
        ;
    }
    assert forall|index: int| 0 <= index < bounds.area() implies #[trigger] some_band_has_byte(
        bounds,
        workers,
        index,
    ) by {
        lemma_position_is_pixel(width, height, index);
        let row = index / width;
        assert(some_band_has_row(bounds, workers, row));
        let i = choose|i: int|
            0 <= i < workers && #[trigger] band_at(bounds, workers, i).has_row(row);
        lemma_band_at(bounds, workers, i);
        lemma_band_rows(bounds, workers, i);
        let band = band_at(bounds, workers, i);
        assert(band.top * width <= index < (band.top + band.rows) * width) by (nonlinear_arith)
            requires
                band.top <= row < band.top + band.rows,
                index == row * width + index % width,
                0 <= index % width < width,
        ;
        assert(band_at(bounds, workers, i).has_byte(index));
    }
    assert forall|i: int, j: int, index: int|
        0 <= i < workers && 0 <= j < workers && #[trigger] band_at(bounds, workers, i).has_byte(
            index,
        ) && #[trigger] band_at(bounds, workers, j).has_byte(index) implies i == j by {
        lemma_band_at(bounds, workers, i);
        lemma_band_rows(bounds, workers, i);
        lemma_band_at(bounds, workers, j);
        lemma_band_rows(bounds, workers, j);
        let a = band_at(bounds, workers, i);
        let b = band_at(bounds, workers, j);
        if i < j {
            lemma_band_top_monotone(height, workers, i + 1, j);
            assert((a.top + a.rows) * width <= b.top * width) by (nonlinear_arith)
                requires
                    a.top + a.rows <= b.top,
                    0 <= width,
            ;
        }
        if j < i {
            lemma_band_top_monotone(height, workers, j + 1, i);
            assert((b.top + b.rows) * width <= a.top * width) by (nonlinear_arith)
                requires
                    b.top + b.rows <= a.top,
                    0 <= width,
            ;
        }
    }
}

/// A pixel of a band stands at the same place in the image's buffer whether
/// it is counted from the band's first byte, by its row within the band, or
/// from the buffer's first byte, by its row within the image; and that place
/// is one of the band's bytes.
pub proof fn lemma_band_pixel_position(bounds: Bounds, band: Band, col: int, row: int)
    requires
        band.is_band_of(bounds),
        0 <= col < bounds.width,
        0 <= row < band.rows,
    ensures
        band.start + pixel_index(bounds.width as int, col, row) == pixel_index(
            bounds.width as int,
            col,
            band.top + row,
        ),
        band.has_byte(band.start + pixel_index(bounds.width as int, col, row)),
{
    let width = bounds.width as int;
    assert((band.top + row) * width == band.top * width + row * width) by (nonlinear_arith);
    assert(0 <= row * width && row * width + width <= band.rows * width) by (nonlinear_arith)
        requires
            0 <= row < band.rows,
            0 < width,
    ;
    assert((band.top + band.rows) * width == band.top * width + band.rows * width)
        by (nonlinear_arith);
}

/// The image of a band alone: the band rendered as a grid of its own, with
/// its first row as row 0, each of its pixels classified as the pixel of the
/// whole image that it is.
pub open spec fn band_image(
    bounds: Bounds,
    band: Band,
    escape_time: spec_fn(int, int) -> Option<u32>,
) -> Seq<u8> {
    image_of(
        Bounds { width: bounds.width, height: band.rows },
        |col: int, row: int| escape_time(col, band.top + row),
    )
}

/// The images of the first `n` of the `workers` bands of an image, laid end
/// to end.
pub open spec fn banded_image(
    bounds: Bounds,
    workers: int,
    escape_time: spec_fn(int, int) -> Option<u32>,
    n: int,
) -> Seq<u8>
    decreases n,
{
    if n <= 0 {
        Seq::empty()
    } else {
        banded_image(bounds, workers, escape_time, n - 1) + band_image(
            bounds,
            band_at(bounds, workers, n - 1),
            escape_time,
        )
    }
}

/// The image of a band alone is the part of the whole image that lies in
/// the band's range of the buffer.
pub proof fn lemma_band_image_is_slice(
    bounds: Bounds,
    band: Band,
    escape_time: spec_fn(int, int) -> Option<u32>,
)
    requires
        bounds.fits(),
        band.is_band_of(bounds),
    ensures
        band.start <= band.end <= bounds.area(),
        band_image(bounds, band, escape_time) == image_of(bounds, escape_time).subrange(
            band.start as int,
            band.end as int,
        ),
{
    let width = bounds.width as int;
    let height = bounds.height as int;
    let top = band.top as int;
    let rows = band.rows as int;
    assert((top + rows) * width == top * width + rows * width) by (nonlinear_arith);
    assert(0 <= top * width && 0 <= rows * width && (top + rows) * width <= width * height)
        by (nonlinear_arith)
        requires
            0 <= top,
            0 <= rows,
            top + rows <= height,
            0 <= width,
    ;
    assert(width * rows == rows * width) by (nonlinear_arith);
    let part = band_image(bounds, band, escape_time);
    let slice = image_of(bounds, escape_time).subrange(band.start as int, band.end as int);
    assert(part.len() == slice.len());
    assert forall|k: int| 0 <= k < part.len() implies part[k] == slice[k] by {
        assert(width > 0) by (nonlinear_arith)
            requires
                0 <= k < rows * width,
                0 <= width,
                0 <= rows,
        ;
        vstd::arithmetic::div_mod::lemma_fundamental_div_mod(k, width);
        let col = k % width;
        let row = k / width;
        assert(top * width + k == (top + row) * width + col) by (nonlinear_arith)
            requires
                k == width * row + col,
        ;
        vstd::arithmetic::div_mod::lemma_fundamental_div_mod_converse(
            top * width + k,
            width,
            top + row,
            col,
        );
    }
    assert(part =~= slice);
}

/// The images of the first `n` bands, laid end to end, are the whole image
/// down to where band `n` begins.
proof fn lemma_banded_image_prefix(
    bounds: Bounds,
    workers: int,
    escape_time: spec_fn(int, int) -> Option<u32>,
    n: int,
)
    requires
        bounds.fits(),
        1 <= workers,
        0 <= n,
    ensures
        band_at(bounds, workers, n).start <= bounds.area(),
        banded_image(bounds, workers, escape_time, n) == image_of(bounds, escape_time).subrange(
            0,
            band_at(bounds, workers, n).start as int,
        ),
    decreases n,
{
    let whole = image_of(bounds, escape_time);
    lemma_bands_are_consecutive(bounds, workers, n);
    lemma_band_at(bounds, workers, n);
    lemma_band_rows(bounds, workers, n);
    lemma_band_image_is_slice(bounds, band_at(bounds, workers, n), escape_time);
    if n == 0 {
        assert(banded_image(bounds, workers, escape_time, 0) =~= whole.subrange(0, 0));
    } else {
        let band = band_at(bounds, workers, n - 1);
        lemma_banded_image_prefix(bounds, workers, escape_time, n - 1);
        lemma_bands_are_consecutive(bounds, workers, n - 1);
        lemma_band_at(bounds, workers, n - 1);
        lemma_band_rows(bounds, workers, n - 1);
        lemma_band_image_is_slice(bounds, band, escape_time);
        assert(whole.subrange(0, band.start as int) + whole.subrange(
            band.start as int,
            band.end as int,
        ) =~= whole.subrange(0, band.end as int));
    }
}

/// Rendering an image band by band gives the image itself, whatever the
/// number of workers: the images of all the bands, laid end to end, are the
/// image of the whole grid. So two renderings of one image with different
/// numbers of workers agree in every byte.
pub proof fn lemma_banded_image_is_image(
    bounds: Bounds,
    workers: int,
    escape_time: spec_fn(int, int) -> Option<u32>,
)
    requires
        bounds.fits(),
        1 <= workers,
    ensures
        banded_image(bounds, workers, escape_time, workers) == image_of(bounds, escape_time),
{
    let whole = image_of(bounds, escape_time);
    lemma_banded_image_prefix(bounds, workers, escape_time, workers);
    lemma_bands_are_consecutive(bounds, workers, workers - 1);
    assert(whole.subrange(0, whole.len() as int) =~= whole);
}

} // verus!
