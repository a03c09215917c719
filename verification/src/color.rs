//! The color model: 8-bit RGB colors and the cheap squared-Euclidean
//! distance that the placement engine uses as its primary similarity metric.

use vstd::prelude::*;

verus! {

/// An immutable RGB color value. Equality is defined on the three channels.
#[derive(Clone, Copy, PartialEq, Eq, Structural, Debug, Hash)]
pub struct Color {
    pub r: u8,
    pub g: u8,
    pub b: u8,
}

/// The largest value `color_distance` can return:
/// three channel differences of 255, each squared.
pub const MAX_COLOR_DISTANCE: u32 = 195075;

/// The squared difference of one channel pair.
pub open spec fn channel_diff_sq(a: u8, b: u8) -> int {
    (a - b) * (a - b)
}

/// The squared-Euclidean distance between two colors over the integer
/// channel range: the sum of squared per-channel differences.
pub open spec fn distance_spec(c1: Color, c2: Color) -> int {
    channel_diff_sq(c1.r, c2.r) + channel_diff_sq(c1.g, c2.g) + channel_diff_sq(c1.b, c2.b)
}

impl Color {
    pub fn new(r: u8, g: u8, b: u8) -> (c: Color)
        ensures
            c == (Color { r, g, b }),
    {
        Color { r, g, b }
    }
}

/// One channel's contribution to the distance, as executable code.
fn channel_term(a: u8, b: u8) -> (d: u32)
    ensures
        d == channel_diff_sq(a, b),
        d <= 65025,
{
    let diff: i32 = a as i32 - b as i32;
    proof {
        assert(diff * diff == channel_diff_sq(a, b) && 0 <= diff * diff <= 65025)
            by (nonlinear_arith)
            requires
                diff == a - b,
                -255 <= diff <= 255,
        ;
    }
    (diff * diff) as u32
}

/// The primary similarity metric: cheap enough for millions of calls per run.
pub fn color_distance(color1: &Color, color2: &Color) -> (d: u32)
    ensures
        d == distance_spec(*color1, *color2),
        d <= MAX_COLOR_DISTANCE,
{
    proof {
        lemma_distance_bounded(*color1, *color2);
    }
    channel_term(color1.r, color2.r) + channel_term(color1.g, color2.g) + channel_term(
        color1.b,
        color2.b,
    )
}

/// The distance of any two colors is at least 0 and at most
/// `MAX_COLOR_DISTANCE`, because each channel difference lies in [-255, 255].
pub proof fn lemma_distance_bounded(c1: Color, c2: Color)
    ensures
        0 <= distance_spec(c1, c2) <= MAX_COLOR_DISTANCE,
{
    assert forall|a: u8, b: u8| 0 <= #[trigger] channel_diff_sq(a, b) <= 65025 by {
        assert((a - b) * (a - b) <= 65025 && (a - b) * (a - b) >= 0) by (nonlinear_arith)
            requires
                -255 <= a - b <= 255,
        ;
    }
}

} // verus!
