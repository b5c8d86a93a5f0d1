//! The split of an image into horizontal bands, one for each worker.

use vstd::prelude::*;
use crate::bounds::Bounds;

verus! {

/// The number of workers among which an image is split where the caller
/// names none.
pub const DEFAULT_WORKERS: u32 = 8;

/// A contiguous range of rows of an image, with the range of the image's
/// row-major buffer that holds those rows.
#[derive(Clone, Copy, Debug, PartialEq, Eq, Structural)]
pub struct Band {
    /// The band's first row.
    pub top: usize,
    /// The number of rows in the band.
    pub rows: usize,
    /// The position in the buffer of the band's first byte.
    pub start: usize,
    /// The position in the buffer one past the band's last byte.
    pub end: usize,
}

/// The number of rows in a full band: `height / workers`, rounded up.
pub open spec fn rows_per_band(height: int, workers: int) -> int {
    if height % workers == 0 {
        height / workers
    } else {
        height / workers + 1
    }
}

/// The first row of band `i`: bands are laid out from the top of the image,
/// each `rows_per_band` rows below the one before, until the rows run out.
pub open spec fn band_top(height: int, workers: int, i: int) -> int {
    vstd::math::min(i * rows_per_band(height, workers), height)
}

/// Band `i` of the image `bounds` split among `workers` workers: a full band
/// where that many rows are left below its top, and else what is left, which
/// may be nothing.
pub open spec fn band_at(bounds: Bounds, workers: int, i: int) -> Band {
    let top = band_top(bounds.height as int, workers, i);
    let rows = vstd::math::min(rows_per_band(bounds.height as int, workers), bounds.height - top);
    Band {
        top: top as usize,
        rows: rows as usize,
        start: (top * bounds.width) as usize,
        end: ((top + rows) * bounds.width) as usize,
    }
}

impl Band {
    /// Whether the band's fields agree with one another for an image of the
    /// given bounds: the rows lie inside the image, and the byte range is
    /// that of the rows.
    pub open spec fn is_band_of(self, bounds: Bounds) -> bool {
        &&& self.top + self.rows <= bounds.height
        &&& self.start == self.top * bounds.width
        &&& self.end == (self.top + self.rows) * bounds.width
    }

    /// Whether `row` of the image is one of the band's rows.
    pub open spec fn has_row(self, row: int) -> bool {
        self.top <= row < self.top + self.rows
    }

    /// Whether position `index` of the buffer is one of the band's bytes.
    pub open spec fn has_byte(self, index: int) -> bool {
        self.start <= index < self.end
    }

    /// The number of bytes in the band's range of the buffer.
    pub fn len(&self) -> (len: usize)
        requires
            self.start <= self.end,
        ensures
            len == self.end - self.start,
    {
        self.end - self.start
    }

    /// The grid of the band alone: as wide as the image, and as high as the
    /// band has rows.
    pub fn sub_bounds(&self, bounds: Bounds) -> (sub: Bounds)
        ensures
            sub == (Bounds { width: bounds.width, height: self.rows }),
    {
        Bounds { width: bounds.width, height: self.rows }
    }

    /// The pixel of the image, as (column, row), at the band's upper left
    /// corner.
    pub fn upper_left_pixel(&self) -> (pixel: (usize, usize))
        ensures
            pixel == (0usize, self.top),
    {
        (0, self.top)
    }

    /// The pixel of the image, as (column, row), just past the band's lower
    /// right corner: one column right of the last column, one row below the
    /// band's last row.
    pub fn lower_right_pixel(&self, bounds: Bounds) -> (pixel: (usize, usize))
        requires
            self.top + self.rows <= usize::MAX,
        ensures
            pixel == (bounds.width, (self.top + self.rows) as usize),
    {
        (bounds.width, self.top + self.rows)
    }
}

/// Splits the rows of the image `bounds` into `worker_count` bands, from the
/// top down, each with its range of the image's buffer.
pub fn partition(bounds: Bounds, worker_count: u32) -> (bands: Vec<Band>)
    requires
        bounds.fits(),
        worker_count >= 1,
    ensures
        bands@.len() == worker_count,
        forall|i: int|
            0 <= i < worker_count ==> #[trigger] bands@[i] == band_at(bounds, worker_count as int, i),
        forall|i: int| 0 <= i < worker_count ==> (#[trigger] bands@[i]).is_band_of(bounds),
{
    let workers: usize = worker_count as usize;
    let ghost height = bounds.height as int;
    let ghost count = worker_count as int;
    proof {
        lemma_rows_per_band(height, count);
        lemma_band_top_step(height, count, 0);
    }
    let per_band: usize = if bounds.height % workers == 0 {
        bounds.height / workers
    } else {
        bounds.height / workers + 1
    };
    let mut bands: Vec<Band> = Vec::new();
    let mut top: usize = 0;
    let mut offset: usize = 0;
    let mut i: u32 = 0;
    while i < worker_count
        invariant
            bounds.fits(),
            height == bounds.height,
            count == worker_count,
            count >= 1,
            i <= worker_count,
            per_band == rows_per_band(height, count),
            top == band_top(height, count, i as int),
            top <= bounds.height,
            offset == top * bounds.width,
            bands@.len() == i,
            forall|k: int| 0 <= k < i ==> #[trigger] bands@[k] == band_at(bounds, count, k),
            forall|k: int| 0 <= k < i ==> (#[trigger] bands@[k]).is_band_of(bounds),
        decreases worker_count - i,
    {
        let left: usize = bounds.height - top;
        let rows: usize = if per_band < left {
            per_band
        } else {
            left
        };
        proof {
            lemma_band_top_step(height, count, i as int);
            assert(0 <= rows * bounds.width && (top + rows) * bounds.width == top * bounds.width
                + rows * bounds.width && (top + rows) * bounds.width <= bounds.height
                * bounds.width) by (nonlinear_arith)
                requires
                    top + rows <= bounds.height,
            ;
        }
        let len: usize = rows * bounds.width;
        let band = Band { top, rows, start: offset, end: offset + len };
        assert(band == band_at(bounds, count, i as int));
        proof {
            lemma_band_at(bounds, count, i as int);
        }
        bands.push(band);
        top = top + rows;
        offset = offset + len;
        i += 1;
    }
    bands
}

/// `rows_per_band` is the least number of rows per band with which
/// `workers` bands reach the bottom of the image.
pub proof fn lemma_rows_per_band(height: int, workers: int)
    requires
        0 <= height,
        1 <= workers,
    ensures
        0 <= rows_per_band(height, workers) <= height,
        rows_per_band(height, workers) * workers >= height,
        height > 0 ==> (rows_per_band(height, workers) - 1) * workers < height,
{
    let q = height / workers;
    let r = height % workers;
    vstd::arithmetic::div_mod::lemma_fundamental_div_mod(height, workers);
    assert(0 <= r < workers);
    assert(0 <= q) by (nonlinear_arith)
        requires
            height == workers * q + r,
            0 <= height,
            0 <= r < workers,
    ;
    assert(q * workers == workers * q) by (nonlinear_arith);
    assert((q + 1) * workers == workers * q + workers) by (nonlinear_arith);
    assert((q - 1) * workers == workers * q - workers) by (nonlinear_arith);
    assert(q <= workers * q) by (nonlinear_arith)
        requires
            0 <= q,
            1 <= workers,
    ;
}

/// Band `i + 1` begins where band `i` ends, and no band reaches below the
/// image.
pub proof fn lemma_band_top_step(height: int, workers: int, i: int)
    requires
        0 <= height,
        1 <= workers,
        0 <= i,
    ensures
        0 <= band_top(height, workers, i) <= height,
        band_top(height, workers, i + 1) == band_top(height, workers, i) + vstd::math::min(
            rows_per_band(height, workers),
            height - band_top(height, workers, i),
        ),
{
    let per_band = rows_per_band(height, workers);
    lemma_rows_per_band(height, workers);
    assert((i + 1) * per_band == i * per_band + per_band) by (nonlinear_arith);
    assert(0 <= i * per_band) by (nonlinear_arith)
        requires
            0 <= i,
            0 <= per_band,
    ;
}

/// The bands reach the bottom of the image: where band `workers` would
/// begin, the image ends.
pub proof fn lemma_bands_reach_bottom(height: int, workers: int)
    requires
        0 <= height,
        1 <= workers,
    ensures
        band_top(height, workers, workers) == height,
{
    lemma_rows_per_band(height, workers);
    assert(workers * rows_per_band(height, workers) == rows_per_band(height, workers) * workers)
        by (nonlinear_arith);
}

/// A band further down the image never begins above one further up.
pub proof fn lemma_band_top_monotone(height: int, workers: int, i: int, j: int)
    requires
        0 <= height,
        1 <= workers,
        0 <= i <= j,
    ensures
        band_top(height, workers, i) <= band_top(height, workers, j),
{
    let per_band = rows_per_band(height, workers);
    lemma_rows_per_band(height, workers);
    assert(i * per_band <= j * per_band) by (nonlinear_arith)
        requires
            i <= j,
            0 <= per_band,
    ;
}

/// The rows of band `i` run from `band_top` of `i` to `band_top` of
/// `i + 1`, inside the image.
pub proof fn lemma_band_rows(bounds: Bounds, workers: int, i: int)
    requires
        1 <= workers,
        0 <= i,
    ensures
        band_at(bounds, workers, i).top == band_top(bounds.height as int, workers, i),
        band_at(bounds, workers, i).top + band_at(bounds, workers, i).rows == band_top(
            bounds.height as int,
            workers,
            i + 1,
        ),
        band_at(bounds, workers, i).top + band_at(bounds, workers, i).rows <= bounds.height,
{
    let height = bounds.height as int;
    lemma_rows_per_band(height, workers);
    lemma_band_top_step(height, workers, i);
    lemma_band_top_step(height, workers, i + 1);
}

/// The byte range of band `i` is that of its rows: the band's fields agree
/// with one another.
pub proof fn lemma_band_at(bounds: Bounds, workers: int, i: int)
    requires
        bounds.fits(),
        1 <= workers,
        0 <= i,
    ensures
        band_at(bounds, workers, i).is_band_of(bounds),
{
    let height = bounds.height as int;
    let width = bounds.width as int;
    lemma_band_rows(bounds, workers, i);
    lemma_band_top_step(height, workers, i);
    let top = band_top(height, workers, i);
    let bottom = band_top(height, workers, i + 1);
    assert(0 <= top * width <= bottom * width <= height * width) by (nonlinear_arith)
        requires
            0 <= top <= bottom <= height,
            0 <= width,
    ;
}

/// Whether one of the `workers` bands of the image `bounds` holds `row`.
pub open spec fn some_band_has_row(bounds: Bounds, workers: int, row: int) -> bool {
    exists|i: int| 0 <= i < workers && #[trigger] band_at(bounds, workers, i).has_row(row)
}

/// The bands of an image split its rows: every band lies inside the image,
/// every row of the image is in one of the bands, and no row is in two.
pub proof fn lemma_bands_tile_rows(bounds: Bounds, workers: int)
    requires
        1 <= workers,
    ensures
        forall|i: int, row: int|
            0 <= i < workers && #[trigger] band_at(bounds, workers, i).has_row(row) ==> 0 <= row
                < bounds.height,
        forall|row: int|
            0 <= row < bounds.height ==> #[trigger] some_band_has_row(bounds, workers, row),
        forall|i: int, j: int, row: int|
            0 <= i < workers && 0 <= j < workers && #[trigger] band_at(bounds, workers, i).has_row(
                row,
            ) && #[trigger] band_at(bounds, workers, j).has_row(row) ==> i == j,
{
    let height = bounds.height as int;
    let per_band = rows_per_band(height, workers);
    lemma_rows_per_band(height, workers);
    assert forall|i: int, row: int|
        0 <= i < workers && #[trigger] band_at(bounds, workers, i).has_row(row) implies 0 <= row
        < bounds.height by {
        lemma_band_rows(bounds, workers, i);
        lemma_band_top_step(height, workers, i + 1);
    }
    assert forall|row: int| 0 <= row < bounds.height implies #[trigger] some_band_has_row(
        bounds,
        workers,
        row,
    ) by {
        let i = row / per_band;
        vstd::arithmetic::div_mod::lemma_fundamental_div_mod(row, per_band);
        assert(0 <= i < workers && i * per_band <= row < (i + 1) * per_band) by (nonlinear_arith)
            requires
                row == per_band * i + row % per_band,
                0 <= row % per_band < per_band,
                0 <= row < height,
                per_band * workers >= height,
                1 <= workers,
        ;
        lemma_band_rows(bounds, workers, i);
        assert(band_at(bounds, workers, i).has_row(row));
    }
    assert forall|i: int, j: int, row: int|
        0 <= i < workers && 0 <= j < workers && #[trigger] band_at(bounds, workers, i).has_row(row)
            && #[trigger] band_at(bounds, workers, j).has_row(row) implies i == j by {
        lemma_band_rows(bounds, workers, i);
        lemma_band_rows(bounds, workers, j);
        if i < j {
            lemma_band_top_monotone(height, workers, i + 1, j);
        }
        if j < i {
            lemma_band_top_monotone(height, workers, j + 1, i);
        }
    }
}

} // verus!
