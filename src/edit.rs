//! Deriving one dataset from another: a tile is resampled to the new
//! resolution with a Lanczos-3 filter, and left out when its resampled water
//! mask is all water.

use rgb::FromSlice;
use vstd::prelude::*;

use crate::cell::{all_water, is_all_water};

verus! {

/// A square 16-bit raster of side `from`, resampled to side `to` with the
/// Lanczos-3 filter.
pub uninterp spec fn lanczos3_u16(s: Seq<u16>, from: nat, to: nat) -> Seq<u16>;

/// A square 8-bit raster of side `from`, resampled to side `to` with the
/// Lanczos-3 filter.
pub uninterp spec fn lanczos3_u8(s: Seq<u8>, from: nat, to: nat) -> Seq<u8>;

/// Relies on `resize::new` and `Resizer::resize` (Lanczos3, one 16-bit
/// channel): the output has `to * to` samples; both calls fail only when the
/// resizer cannot allocate, sides being non-zero and the input full.
#[verifier::external_body]
fn resample_u16(src: &[u16], from: usize, to: usize, len: usize) -> (r: Option<Vec<u16>>)
    requires
        from > 0,
        to > 0,
        src@.len() == from * from,
        len == to * to,
    ensures
        r matches Some(v) ==> v@ == lanczos3_u16(src@, from as nat, to as nat) && v@.len() == to
            * to,
{
    let mut resizer =
        match resize::new(from, from, to, to, resize::Pixel::Gray16, resize::Type::Lanczos3) {
            Ok(x) => x,
            Err(_) => return None,
        };
    let mut out = vec![0u16; len];
    match resizer.resize(src.as_gray(), out.as_gray_mut()) {
        Ok(()) => Some(out),
        Err(_) => None,
    }
}

/// Relies on `resize::new` and `Resizer::resize` (Lanczos3, one 8-bit
/// channel), as for the 16-bit case.
#[verifier::external_body]
fn resample_u8(src: &[u8], from: usize, to: usize, len: usize) -> (r: Option<Vec<u8>>)
    requires
        from > 0,
        to > 0,
        src@.len() == from * from,
        len == to * to,
    ensures
        r matches Some(v) ==> v@ == lanczos3_u8(src@, from as nat, to as nat) && v@.len() == to
            * to,
{
    let mut resizer =
        match resize::new(from, from, to, to, resize::Pixel::Gray8, resize::Type::Lanczos3) {
            Ok(x) => x,
            Err(_) => return None,
        };
    let mut out = vec![0u8; len];
    match resizer.resize(src.as_gray(), out.as_gray_mut()) {
        Ok(()) => Some(out),
        Err(_) => None,
    }
}

/// What becomes of one tile of the source dataset.
pub enum EditedTile {
    /// Heights, water and hillshade to add to the new dataset.
    Store(Vec<u16>, Vec<u8>, Vec<u8>),
    /// The resampled water mask is all water: the cell is left out.
    AllWater,
    /// The resampler could not allocate.
    ResampleFailed,
}

fn copy_vec<T: Copy>(s: &[T]) -> (r: Vec<T>)
    ensures
        r@ == s@,
{
    let mut out: Vec<T> = Vec::with_capacity(s.len());
    let mut i: usize = 0;
    while i < s.len()
        invariant
            i <= s@.len(),
            out@ == s@.subrange(0, i as int),
        decreases s@.len() - i,
    {
        out.push(s[i]);
        i = i + 1;
        assert(out@ =~= s@.subrange(0, i as int));
    }
    assert(s@.subrange(0, s@.len() as int) =~= s@);
    out
}

/// One tile of a source dataset of tile side `from` as it goes into a
/// dataset of tile side `to`: unchanged where the sides agree; else
/// resampled, and left out where the resampled water is all water.
pub fn edit_tile(from: u16, to: u16, heights: &[u16], water: &[u8], hillshade: &[u8]) -> (r:
    EditedTile)
    requires
        from != to ==> from > 0 && to > 0,
        heights@.len() == from * from,
        water@.len() == from * from,
        hillshade@.len() == from * from,
    ensures
        from == to ==> (r matches EditedTile::Store(h, w, s) && h@ == heights@ && w@ == water@
            && s@ == hillshade@),
        from != to ==> match r {
            EditedTile::Store(h, w, s) => {
                &&& h@ == lanczos3_u16(heights@, from as nat, to as nat)
                &&& w@ == lanczos3_u8(water@, from as nat, to as nat)
                &&& s@ == lanczos3_u8(hillshade@, from as nat, to as nat)
                &&& !all_water(w@)
            },
            EditedTile::AllWater => all_water(lanczos3_u8(water@, from as nat, to as nat)),
            EditedTile::ResampleFailed => true,
        },
{
    if from == to {
        return EditedTile::Store(copy_vec(heights), copy_vec(water), copy_vec(hillshade));
    }
    let f = from as usize;
    let t = to as usize;
    assert(t * t <= 65535 * 65535) by (nonlinear_arith)
        requires t <= 65535;
    let len = t * t;
    let h = match resample_u16(heights, f, t, len) {
        Some(v) => v,
        None => return EditedTile::ResampleFailed,
    };
    let w = match resample_u8(water, f, t, len) {
        Some(v) => v,
        None => return EditedTile::ResampleFailed,
    };
    let s = match resample_u8(hillshade, f, t, len) {
        Some(v) => v,
        None => return EditedTile::ResampleFailed,
    };
    if is_all_water(&w) {
        EditedTile::AllWater
    } else {
        EditedTile::Store(h, w, s)
    }
}

} // verus!
