use vstd::prelude::*;

verus! {

/// Below this many samples per pixel, a pixel's samples are taken one after
/// another; from it on, they are spread over workers.
pub const MAX_SEQUENTIAL_SAMPLES: u32 = 350;

/// Whether the samples of one pixel are taken in parallel.
pub fn samples_in_parallel(samples_per_pixel: u32) -> (r: bool)
    ensures
        r == (samples_per_pixel >= MAX_SEQUENTIAL_SAMPLES),
{
    samples_per_pixel >= MAX_SEQUENTIAL_SAMPLES
}

/// The pixel at position `k` of the output buffer of an image `width` pixels
/// wide and `height` high: rows run from the top (`j = height - 1`) down, and
/// each row from left (`i = 0`) to right.
pub open spec fn pixel_at(width: nat, height: nat, k: nat) -> (usize, usize) {
    ((k % width) as usize, (height - 1 - k / width) as usize)
}

/// The pixel coordinates `(i, j)` of the output buffer, in its order.
pub fn pixel_order(width: usize, height: usize) -> (r: Vec<(usize, usize)>)
    requires
        width * height <= usize::MAX,
    ensures
        r.len() == width * height,
        forall|k: int| 0 <= k < r.len() ==> #[trigger] r@[k] == pixel_at(width as nat, height as nat, k as nat),
{
    let mut out: Vec<(usize, usize)> = Vec::new();
    let mut row: usize = 0;
    while row < height
        invariant
            row <= height,
            width * height <= usize::MAX,
            out.len() == row * width,
            forall|k: int| 0 <= k < out.len() ==> #[trigger] out@[k] == pixel_at(width as nat, height as nat, k as nat),
        decreases height - row,
    {
        let j = height - 1 - row;
        let mut i: usize = 0;
        while i < width
            invariant
                row < height,
                j == height - 1 - row,
                i <= width,
                width * height <= usize::MAX,
                out.len() == row * width + i,
                forall|k: int| 0 <= k < out.len() ==> #[trigger] out@[k] == pixel_at(width as nat, height as nat, k as nat),
            decreases width - i,
        {
            proof {
                let k = row * width + i;
                assert(k / (width as int) == row as int && k % (width as int) == i as int) by {
                    vstd::arithmetic::div_mod::lemma_fundamental_div_mod_converse(
                        k as int, width as int, row as int, i as int);
                }
                assert((row + 1) * width <= height * width) by (nonlinear_arith)
                    requires row < height;
                assert(row * width + i < (row + 1) * width) by (nonlinear_arith)
                    requires i < width;
            }
            out.push((i, j));
            i = i + 1;
        }
        proof {
            assert((row + 1) * width == row * width + width) by (nonlinear_arith);
        }
        row = row + 1;
    }
    assert(height * width == width * height) by (nonlinear_arith);
    out
}

} // verus!
