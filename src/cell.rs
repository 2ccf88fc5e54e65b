//! The part of building a dataset that is done for each cell: cropping the
//! border that was sampled for the hillshade, turning signed heights into
//! stored samples, leaving out cells that are all water, and quantising
//! heights by the dataset's height resolution.

use vstd::arithmetic::div_mod::lemma_fundamental_div_mod_converse;
use vstd::prelude::*;

verus! {

/// The interior `n`×`n` of an `(n + 2)`×`(n + 2)` row-major grid.
pub open spec fn crop_spec<T>(d: Seq<T>, n: int) -> Seq<T> {
    Seq::new((n * n) as nat, |i: int| d[(i / n + 1) * (n + 2) + i % n + 1])
}

/// Drops the one-sample border of a grid of side `n + 2`.
pub fn crop_interior<T: Copy>(data: &[T], n: usize) -> (r: Vec<T>)
    requires
        data@.len() == (n + 2) * (n + 2),
    ensures
        r@ == crop_spec(data@, n as int),
{
    let total = data.len();
    let mut out: Vec<T> = Vec::new();
    let mut row: usize = 0;
    while row < n
        invariant
            row <= n,
            data@.len() == (n + 2) * (n + 2),
            total == data@.len(),
            out@.len() == row * n,
            forall|j: int| 0 <= j < out@.len() ==> #[trigger] out@[j] == data@[(j / n as int + 1) * (n + 2) + j % n as int + 1],
        decreases n - row,
    {
        let mut col: usize = 0;
        while col < n
            invariant
                row < n,
                col <= n,
                data@.len() == (n + 2) * (n + 2),
                total == data@.len(),
                out@.len() == row * n + col,
                forall|j: int| 0 <= j < out@.len() ==> #[trigger] out@[j] == data@[(j / n as int + 1) * (n + 2) + j % n as int + 1],
            decreases n - col,
        {
            assert((row + 1) * (n + 2) + col + 1 < (n + 2) * (n + 2)) by (nonlinear_arith)
                requires row < n, col < n;
            assert((row + 1) * (n + 2) <= (n + 2) * (n + 2)) by (nonlinear_arith)
                requires row < n;
            assert(n + 2 <= (n + 2) * (n + 2)) by (nonlinear_arith);
            let at = (row + 1) * (n + 2) + col + 1;
            proof {
                lemma_fundamental_div_mod_converse((row * n + col) as int, n as int, row as int, col as int);
            }
            out.push(data[at]);
            col = col + 1;
        }
        assert((row + 1) * n == row * n + n) by (nonlinear_arith);
        row = row + 1;
    }
    assert(out@ =~= crop_spec(data@, n as int));
    out
}

/// Whether every water sample says water.
pub open spec fn all_water(w: Seq<u8>) -> bool {
    forall|i: int| 0 <= i < w.len() ==> #[trigger] w[i] == 1
}

pub fn is_all_water(water: &[u8]) -> (r: bool)
    ensures
        r == all_water(water@),
{
    let mut i: usize = 0;
    while i < water.len()
        invariant
            i <= water@.len(),
            forall|j: int| 0 <= j < i ==> #[trigger] water@[j] == 1,
        decreases water@.len() - i,
    {
        if water[i] != 1 {
            return false;
        }
        i = i + 1;
    }
    true
}

/// A signed height in metres as the stored sample `h + 500`, modulo 2^16.
pub open spec fn raised(h: i16) -> u16 {
    ((h as int + 500) % 65536) as u16
}

/// The heights a cell hands to the builder, or `None` where every water
/// sample is water and the cell is left out of the dataset.
pub fn heights_for_store(heights: &[i16], water: &[u8]) -> (r: Option<Vec<u16>>)
    requires
        heights@.len() == water@.len(),
    ensures
        r is None <==> all_water(water@),
        r matches Some(v) ==> v@.len() == heights@.len() && forall|i: int|
            0 <= i < heights@.len() ==> #[trigger] v@[i] == raised(heights@[i]),
{
    if is_all_water(water) {
        return None;
    }
    let mut out: Vec<u16> = Vec::with_capacity(heights.len());
    let mut i: usize = 0;
    while i < heights.len()
        invariant
            i <= heights@.len(),
            out@.len() == i,
            forall|j: int| 0 <= j < i ==> #[trigger] out@[j] == raised(heights@[j]),
        decreases heights@.len() - i,
    {
        let h = heights[i] as i32 + 500;
        let v: u16 = if h < 0 { (h + 65536) as u16 } else { h as u16 };
        out.push(v);
        i = i + 1;
    }
    Some(out)
}

/// `h / step` rounded to the nearest integer, halves away from zero.
pub open spec fn quantized(h: u16, step: u16) -> int {
    (2 * h + step) / (2 * step as int)
}

/// Divides each height by the height resolution, rounding to the nearest
/// step, as the builder stores it.
pub fn quantize_heights(heights: &[u16], step: u16) -> (r: Vec<u16>)
    requires
        step > 0,
    ensures
        r@.len() == heights@.len(),
        forall|i: int| 0 <= i < heights@.len() ==> #[trigger] r@[i] as int == quantized(heights@[i], step),
{
    let mut out: Vec<u16> = Vec::with_capacity(heights.len());
    let mut i: usize = 0;
    while i < heights.len()
        invariant
            step > 0,
            i <= heights@.len(),
            out@.len() == i,
            forall|j: int| 0 <= j < i ==> #[trigger] out@[j] as int == quantized(heights@[j], step),
        decreases heights@.len() - i,
    {
        let h = heights[i] as u32;
        let s = step as u32;
        let q = (2 * h + s) / (2 * s);
        assert(q <= 65535) by (nonlinear_arith)
            requires q == (2 * h + s) / (2 * s), h <= 65535, s >= 1;
        out.push(q as u16);
        i = i + 1;
    }
    out
}

/// A stored height read back differs from the height that was stored by at
/// most half a step, wherever the scaled-back value fits in 16 bits.
pub proof fn lemma_quantize_error(h: u16, step: u16)
    requires
        step > 0,
        quantized(h, step) * step < 65536,
    ensures
        (quantized(h, step) * step) % 65536 == quantized(h, step) * step,
        -(step as int) <= 2 * ((quantized(h, step) * step) % 65536 - h) <= step,
{
    let q = quantized(h, step);
    let s = step as int;
    let hh = h as int;
    assert(q >= 0) by (nonlinear_arith)
        requires q == (2 * hh + s) / (2 * s), hh >= 0, s >= 1;
    vstd::arithmetic::div_mod::lemma_fundamental_div_mod(2 * hh + s, 2 * s);
    let rem = (2 * hh + s) % (2 * s);
    assert(0 <= rem < 2 * s);
    assert(2 * hh + s == 2 * s * q + rem);
    assert(2 * s * q == 2 * (q * s)) by (nonlinear_arith);
    assert(q * s >= 0) by (nonlinear_arith)
        requires q >= 0, s >= 1;
    vstd::arithmetic::div_mod::lemma_small_mod((q * s) as nat, 65536);
    assert(2 * (q * s - hh) == s - rem);
}

} // verus!
