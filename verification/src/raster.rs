//! Raster order of the output image.
//!
//! Film coordinates use a column `i` in `0..width` (left to right) and a row
//! `j` in `0..height` counted from the bottom of the image. The output
//! buffer is written top to bottom, so the pixel emitted `k`-th has
//! `i == k % width` and `j == height - 1 - k / width`, and its three color
//! bytes start at `3 * k`.

use crate::scene::SceneSettings;
use vstd::prelude::*;

verus! {

/// The film coordinates of the `k`-th pixel in raster order.
pub fn pixel_coords(s: &SceneSettings, k: usize) -> (c: (i32, i32))
    requires
        s.valid(),
        k < s.width * s.height,
    ensures
        c.0 == k as int % s.width as int,
        c.1 == s.height - 1 - (k as int) / (s.width as int),
{
    let w = s.width as usize;
    let i = k % w;
    let q = k / w;
    proof {
        assert((k as int) / (w as int) < s.height) by (nonlinear_arith)
            requires
                1 <= w as int,
                w as int == s.width,
                k < s.width * s.height,
        ;
    }
    (i as i32, s.height - 1 - q as i32)
}

/// The byte offset in the output buffer at which the pixel in column `i`
/// and bottom-up row `j` begins.
pub fn pixel_base(s: &SceneSettings, i: i32, j: i32) -> (b: usize)
    requires
        s.valid(),
        0 <= i < s.width,
        0 <= j < s.height,
    ensures
        b == 3 * ((s.height - 1 - j) * s.width + i),
        b + 3 <= 3 * s.width * s.height,
{
    let row_from_top = (s.height - 1 - j) as usize;
    proof {
        assert((s.height - 1 - j) * s.width + i + 1 <= s.width * s.height && s.width * s.height
            <= 3 * s.width * s.height && 3 * ((s.width as int) * (s.height as int)) == 3 * s.width
            * s.height) by (nonlinear_arith)
            requires
                1 <= s.width,
                0 <= i < s.width,
                0 <= j < s.height,
        ;
    }
    3 * (row_from_top * (s.width as usize) + (i as usize))
}

/// All film coordinates in raster order: row `height - 1` down to row `0`,
/// each row left to right.
pub fn raster_order(s: &SceneSettings) -> (order: Vec<(i32, i32)>)
    requires
        s.valid(),
    ensures
        order@.len() == s.width * s.height,
        forall|k: int|
            0 <= k < order@.len() ==> #[trigger] order@[k] == (
                (k % s.width as int) as i32,
                (s.height - 1 - k / s.width as int) as i32,
            ),
{
    let n = s.pixel_count();
    let mut order: Vec<(i32, i32)> = Vec::new();
    let mut k: usize = 0;
    while k < n
        invariant
            s.valid(),
            n == s.width * s.height,
            k <= n,
            order@.len() == k,
            forall|m: int|
                0 <= m < k ==> #[trigger] order@[m] == (
                    (m % s.width as int) as i32,
                    (s.height - 1 - m / s.width as int) as i32,
                ),
        decreases n - k,
    {
        let c = pixel_coords(s, k);
        order.push(c);
        k = k + 1;
    }
    order
}

} // verus!
