//! Grayscale shading of escape times.

use vstd::prelude::*;

verus! {

/// The iteration budget with which pixels are classified: an escape time
/// below it has a gray level of its own.
pub const ITERATION_LIMIT: u32 = 255;

/// The gray level of a pixel whose escape time is `outcome`: black for a
/// point that stayed bounded, and the brighter the sooner the point escaped.
pub open spec fn shade_of(outcome: Option<u32>) -> u8 {
    match outcome {
        None => 0u8,
        Some(count) => (255 - count % 256) as u8,
    }
}

/// Computes the gray level of a pixel from its escape time.
pub fn shade(outcome: Option<u32>) -> (level: u8)
    ensures
        level == shade_of(outcome),
{
    match outcome {
        None => 0,
        Some(count) => {
            let low: u32 = count % 256;
            (255 - low) as u8
        },
    }
}

/// Within the iteration budget the gray level tells the outcome: a point
/// that stayed bounded is black and no other is, a point that escaped after
/// iteration `count` has level `255 - count`, and points with different
/// outcomes have different levels.
pub proof fn lemma_shade_within_budget(outcome: Option<u32>, other: Option<u32>)
    requires
        outcome matches Some(count) ==> count < ITERATION_LIMIT,
        other matches Some(count) ==> count < ITERATION_LIMIT,
    ensures
        outcome is None <==> shade_of(outcome) == 0,
        outcome matches Some(count) ==> shade_of(outcome) == 255 - count,
        shade_of(outcome) == shade_of(other) ==> outcome == other,
{
}

} // verus!
