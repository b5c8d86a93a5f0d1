//! The rasterizer: fills a buffer with the gray level of every pixel.

use vstd::prelude::*;
use crate::bounds::{lemma_pixel_index_in_buffer, lemma_position_is_pixel, pixel_index, Bounds};
use crate::shade::{shade, shade_of};

verus! {

/// Whether byte `level` is the gray level of pixel (`col`, `row`) under
/// `classify`: the shade of an escape time that `classify` can return for
/// that pixel.
pub open spec fn is_shade_of_pixel<F: Fn(usize, usize) -> Option<u32>>(
    classify: F,
    col: usize,
    row: usize,
    level: u8,
) -> bool {
    exists|outcome: Option<u32>| #[trigger]
        call_ensures(classify, (col, row), outcome) && level == shade_of(outcome)
}

/// Whether `pixels` is a rendering of the grid `bounds` under `classify`: one
/// byte for each pixel, in row-major order, each the gray level of its pixel.
pub open spec fn rendered_by<F: Fn(usize, usize) -> Option<u32>>(
    pixels: Seq<u8>,
    bounds: Bounds,
    classify: F,
) -> bool {
    &&& pixels.len() == bounds.area()
    &&& forall|col: usize, row: usize|
        bounds.contains(col as int, row as int) ==> #[trigger] is_shade_of_pixel(
            classify,
            col,
            row,
            pixels[pixel_index(bounds.width as int, col as int, row as int)],
        )
}

/// The image of the grid `bounds` under an escape-time function: the byte at
/// the position of pixel (`col`, `row`) is the shade of `escape_time(col, row)`.
pub open spec fn image_of(bounds: Bounds, escape_time: spec_fn(int, int) -> Option<u32>) -> Seq<
    u8,
> {
    Seq::new(
        bounds.area() as nat,
        |index: int| shade_of(escape_time(index % (bounds.width as int), index / (bounds.width as int))),
    )
}

/// Renders the grid `bounds` into `pixels`, one gray level per pixel, row by
/// row: pixel (`col`, `row`) gets the shade of `classify(col, row)`.
pub fn render<F: Fn(usize, usize) -> Option<u32>>(pixels: &mut [u8], bounds: Bounds, classify: F)
    requires
        old(pixels)@.len() == bounds.area(),
        forall|col: usize, row: usize|
            bounds.contains(col as int, row as int) ==> #[trigger] call_requires(
                classify,
                (col, row),
            ),
    ensures
        rendered_by(final(pixels)@, bounds, classify),
{
    let mut row: usize = 0;
    while row < bounds.height
        invariant
            row <= bounds.height,
            pixels@.len() == bounds.area(),
            forall|col: usize, row: usize|
                bounds.contains(col as int, row as int) ==> #[trigger] call_requires(
                classify,
                (col, row),
            ),
            forall|c: usize, r: usize|
                c < bounds.width && r < row ==> #[trigger] is_shade_of_pixel(
                    classify,
                    c,
                    r,
                    pixels@[pixel_index(bounds.width as int, c as int, r as int)],
                ),
        decreases bounds.height - row,
    {
        let mut col: usize = 0;
        while col < bounds.width
            invariant
                row < bounds.height,
                col <= bounds.width,
                pixels@.len() == bounds.area(),
                forall|col: usize, row: usize|
                    bounds.contains(col as int, row as int) ==> #[trigger] call_requires(
                        classify,
                        (col, row),
                    ),
                forall|c: usize, r: usize|
                    c < bounds.width && (r < row || (r == row && c < col))
                        ==> #[trigger] is_shade_of_pixel(
                        classify,
                        c,
                        r,
                        pixels@[pixel_index(bounds.width as int, c as int, r as int)],
                    ),
            decreases bounds.width - col,
        {
            let index = bounds.index_of(col, row);
            let outcome = classify(col, row);
            let level = shade(outcome);
            let ghost before = pixels@;
            pixels[index] = level;
            proof {
                assert(is_shade_of_pixel(classify, col, row, level));
                assert forall|c: usize, r: usize|
                    c < bounds.width && (r < row || (r == row && c < col + 1)) implies #[trigger] is_shade_of_pixel(
                    classify,
                    c,
                    r,
                    pixels@[pixel_index(bounds.width as int, c as int, r as int)],
                ) by {
                    lemma_pixel_index_in_buffer(
                        bounds.width as int,
                        bounds.height as int,
                        c as int,
                        r as int,
                    );
                    lemma_pixel_index_in_buffer(
                        bounds.width as int,
                        bounds.height as int,
                        col as int,
                        row as int,
                    );
                    if r == row && c == col {
                    } else {
                        assert(pixel_index(bounds.width as int, c as int, r as int) != index);
                        assert(is_shade_of_pixel(
                            classify,
                            c,
                            r,
                            before[pixel_index(bounds.width as int, c as int, r as int)],
                        ));
                    }
                }
            }
            col += 1;
        }
        row += 1;
    }
}

/// A rendering under a classifier that can only return `escape_time(col, row)`
/// for pixel (`col`, `row`) is the image of the grid under `escape_time`:
/// the classifier alone decides every byte.
pub proof fn lemma_rendering_is_image<F: Fn(usize, usize) -> Option<u32>>(
    pixels: Seq<u8>,
    bounds: Bounds,
    classify: F,
    escape_time: spec_fn(int, int) -> Option<u32>,
)
    requires
        rendered_by(pixels, bounds, classify),
        forall|col: usize, row: usize, outcome: Option<u32>|
            bounds.contains(col as int, row as int) && #[trigger] call_ensures(
                classify,
                (col, row),
                outcome,
            ) ==> outcome == escape_time(col as int, row as int),
    ensures
        pixels == image_of(bounds, escape_time),
{
    let width = bounds.width as int;
    let height = bounds.height as int;
    assert forall|index: int| 0 <= index < pixels.len() implies pixels[index] == image_of(
        bounds,
        escape_time,
    )[index] by {
        lemma_position_is_pixel(width, height, index);
        let col = (index % width) as usize;
        let row = (index / width) as usize;
        assert(is_shade_of_pixel(classify, col, row, pixels[index]));
    }
}

/// Two renderings of one grid under a classifier that has one outcome for
/// each pixel agree in every byte, however each of them was made: whole or
/// band by band, and among however many workers.
pub proof fn lemma_renderings_agree<F: Fn(usize, usize) -> Option<u32>>(
    first: Seq<u8>,
    second: Seq<u8>,
    bounds: Bounds,
    classify: F,
)
    requires
        rendered_by(first, bounds, classify),
        rendered_by(second, bounds, classify),
        forall|col: usize, row: usize, a: Option<u32>, b: Option<u32>|
            bounds.contains(col as int, row as int) && #[trigger] call_ensures(
                classify,
                (col, row),
                a,
            ) && #[trigger] call_ensures(classify, (col, row), b) ==> a == b,
    ensures
        first == second,
{
    let width = bounds.width as int;
    let height = bounds.height as int;
    assert forall|index: int| 0 <= index < first.len() implies first[index] == second[index] by {
        lemma_position_is_pixel(width, height, index);
        let col = (index % width) as usize;
        let row = (index / width) as usize;
        assert(is_shade_of_pixel(classify, col, row, first[index]));
        assert(is_shade_of_pixel(classify, col, row, second[index]));
    }
    assert(first =~= second);
}

} // verus!
