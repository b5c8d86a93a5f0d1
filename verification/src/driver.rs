//! The driver: renders an image band by band.

use vstd::prelude::*;
use crate::bands::{
    band_at, band_top, lemma_band_at, lemma_band_rows, lemma_bands_reach_bottom, partition,
};
use crate::bounds::{lemma_pixel_index_in_buffer, pixel_index, Bounds};
use crate::raster::{is_shade_of_pixel, render, rendered_by};
use crate::shade::shade_of;
use crate::tiling::{lemma_band_pixel_position, lemma_bands_are_consecutive};

verus! {

/// Renders the grid `bounds` into `pixels` band by band: splits the image
/// among `worker_count` workers, hands each band its own range of the
/// buffer, and renders the bands in turn, each as a grid of its own whose
/// row 0 is the band's first row. The result is a rendering of the whole
/// grid, whatever the number of workers.
pub fn render_bands<F: Fn(usize, usize) -> Option<u32>>(
    pixels: &mut [u8],
    bounds: Bounds,
    worker_count: u32,
    classify: F,
)
    requires
        old(pixels)@.len() == bounds.area(),
        bounds.fits(),
        worker_count >= 1,
        forall|col: usize, row: usize|
            bounds.contains(col as int, row as int) ==> #[trigger] call_requires(
                classify,
                (col, row),
            ),
    ensures
        rendered_by(final(pixels)@, bounds, classify),
{
    let bands = partition(bounds, worker_count);
    let classifier = &classify;
    let ghost workers = worker_count as int;
    let mut rest: &mut [u8] = pixels;
    let ghost mut done: Seq<u8> = Seq::empty();
    let mut i: usize = 0;
    proof {
        lemma_bands_are_consecutive(bounds, workers, 0);
    }
    while i < bands.len()
        invariant
            bounds.fits(),
            workers == worker_count,
            workers >= 1,
            bands@.len() == workers,
            i <= bands.len(),
            *classifier == classify,
            forall|k: int| 0 <= k < workers ==> #[trigger] bands@[k] == band_at(bounds, workers, k),
            forall|col: usize, row: usize|
                bounds.contains(col as int, row as int) ==> #[trigger] call_requires(
                    classify,
                    (col, row),
                ),
            done.len() == band_at(bounds, workers, i as int).start,
            done.len() + rest@.len() == bounds.area(),
            after_borrow(pixels)@ == done + final(rest)@,
            forall|col: usize, row: usize|
                col < bounds.width && row < band_top(bounds.height as int, workers, i as int)
                    ==> #[trigger] is_shade_of_pixel(
                    classify,
                    col,
                    row,
                    done[pixel_index(bounds.width as int, col as int, row as int)],
                ),
        decreases bands.len() - i,
    {
        let band = bands[i];
        let ghost width = bounds.width as int;
        let ghost height = bounds.height as int;
        proof {
            lemma_band_at(bounds, workers, i as int);
            lemma_band_rows(bounds, workers, i as int);
            lemma_bands_are_consecutive(bounds, workers, i as int);
            lemma_band_at(bounds, workers, i + 1);
            lemma_band_rows(bounds, workers, i + 1);
            assert((band.top + band.rows) * width == band.top * width + band.rows * width)
                by (nonlinear_arith);
            assert((band.top + band.rows) * width <= width * height && width * band.rows
                == band.rows * width) by (nonlinear_arith)
                requires
                    band.top + band.rows <= height,
                    0 <= width,
            ;
        }
        let len = band.len();
        let ghost rest_after = final(rest)@;
        let (head, tail) = rest.split_at_mut(len);
        let top = band.top;
        let shifted = |col: usize, row: usize| -> (o: Option<u32>)
            requires
                col < bounds.width && row < band.rows && top + band.rows <= bounds.height,
            ensures
                call_ensures(*classifier, (col, (top + row) as usize), o),
        {
            classifier(col, top + row)
        };
        let sub = band.sub_bounds(bounds);
        render(head, sub, shifted);
        proof {
            let before = done;
            done = before + head@;
            assert(rest_after == head@ + final(tail)@);
            assert(before + (head@ + final(tail)@) =~= (before + head@) + final(tail)@);
            assert forall|col: usize, row: usize|
                col < bounds.width && row < band_top(
                    bounds.height as int,
                    workers,
                    i + 1,
                ) implies #[trigger] is_shade_of_pixel(
                classify,
                col,
                row,
                done[pixel_index(bounds.width as int, col as int, row as int)],
            ) by {
                let place = pixel_index(width, col as int, row as int);
                if row < band.top {
                    lemma_pixel_index_in_buffer(width, band.top as int, col as int, row as int);
                    assert(band.top * width == width * band.top) by (nonlinear_arith);
                    assert(done[place] == before[place]);
                } else {
                    let local = (row - band.top) as usize;
                    lemma_band_pixel_position(bounds, band, col as int, local as int);
                    let inner = pixel_index(width, col as int, local as int);
                    assert(place == band.start + inner);
                    assert(done[place] == head@[inner]);
                    assert(sub.contains(col as int, local as int));
                    assert(is_shade_of_pixel(shifted, col, local, head@[inner]));
                    let outcome = choose|outcome: Option<u32>| #[trigger]
                        call_ensures(shifted, (col, local), outcome) && head@[inner]
                            == shade_of(outcome);
                    assert(call_ensures(classify, (col, row), outcome));
                }
            }
        }
        rest = tail;
        i += 1;
    }
    proof {
        // All the bands are done: they reach the end of the buffer, nothing
        // is left of `rest`, and what was rendered is the whole of `pixels`.
        lemma_bands_are_consecutive(bounds, workers, workers - 1);
        lemma_bands_reach_bottom(bounds.height as int, workers);
        assert(rest@.len() == 0);
        assert(done + rest@ =~= done);
    }
}

} // verus!
