//! Reading a dataset: its metadata, which cells are present, and where each
//! tile record lies and how it splits into its three frames.

use vstd::bytes::spec_u32_from_le_bytes;
use vstd::prelude::*;
use vstd::slice::slice_subrange;

use crate::format::{load_prefix, load_spec, LoadError, TileMetadata, PREFIX_SIZE};
use crate::grid::{index_of, map_lat_lon_to_index, valid_lat_lon, CELL_COUNT};

verus! {

/// Number of entries of an offset table that name a stored tile.
pub open spec fn count_present(t: Seq<u64>) -> nat
    decreases t.len(),
{
    if t.len() == 0 {
        0
    } else {
        count_present(t.drop_last()) + if t.last() != 0 { 1nat } else { 0nat }
    }
}

/// Setting one entry changes the count by what the entry was and what it becomes.
pub proof fn lemma_count_update(t: Seq<u64>, i: int, v: u64)
    requires
        0 <= i < t.len(),
    ensures
        count_present(t.update(i, v)) + (if t[i] != 0 { 1int } else { 0int })
            == count_present(t) + (if v != 0 { 1int } else { 0int }),
    decreases t.len(),
{
    let u = t.update(i, v);
    if i == t.len() - 1 {
        assert(u.drop_last() =~= t.drop_last());
    } else {
        lemma_count_update(t.drop_last(), i, v);
        assert(u.drop_last() =~= t.drop_last().update(i, v));
    }
}

/// A table with every entry zero counts nothing.
pub proof fn lemma_count_zeros(t: Seq<u64>)
    requires
        forall|i: int| 0 <= i < t.len() ==> t[i] == 0,
    ensures
        count_present(t) == 0,
    decreases t.len(),
{
    if t.len() > 0 {
        lemma_count_zeros(t.drop_last());
    }
}

/// Counts the non-zero entries of an offset table.
pub fn count_tiles(t: &Vec<u64>) -> (r: usize)
    ensures
        r == count_present(t@),
{
    let mut count: usize = 0;
    let mut i: usize = 0;
    while i < t.len()
        invariant
            i <= t.len(),
            count == count_present(t@.subrange(0, i as int)),
            count <= i,
        decreases t.len() - i,
    {
        assert(t@.subrange(0, i + 1).drop_last() =~= t@.subrange(0, i as int));
        if t[i] != 0 {
            count = count + 1;
        }
        i = i + 1;
    }
    assert(t@.subrange(0, t.len() as int) =~= t@);
    count
}

/// The metadata and offset table of an opened dataset. The tile records
/// themselves stay in the file, after the prefix; the positions this type
/// hands out are counted from the end of the prefix.
pub struct Dataset {
    pub metadata: TileMetadata,
    pub tile_map: Vec<u64>,
}

impl Dataset {
    pub open spec fn wf(&self) -> bool {
        self.tile_map@.len() == CELL_COUNT
    }

    /// The stored offset of a cell's record; zero where the cell is absent.
    pub open spec fn offset_spec(&self, lat: int, lon: int) -> u64 {
        self.tile_map@[index_of(lat, lon)]
    }

    /// Reads the header and offset table from the first bytes of a file.
    pub fn load(prefix: &[u8]) -> (r: Result<Dataset, LoadError>)
        ensures
            match (r, load_spec(prefix@)) {
                (Ok(d), Ok((m, t))) => d.metadata == m && d.tile_map@ == t && d.wf(),
                (Err(LoadError::InvalidFileSize), Err(LoadError::InvalidFileSize)) => true,
                (Err(LoadError::InvalidMagic), Err(LoadError::InvalidMagic)) => true,
                (
                    Err(LoadError::UnsupportedFormatVersion),
                    Err(LoadError::UnsupportedFormatVersion),
                ) => true,
                _ => false,
            },
    {
        match load_prefix(prefix) {
            Ok((metadata, tile_map)) => Ok(Dataset { metadata, tile_map }),
            Err(e) => Err(e),
        }
    }

    pub fn metadata(&self) -> (r: TileMetadata)
        ensures
            r == self.metadata,
    {
        self.metadata
    }

    pub fn tile_exists(&self, lat: i16, lon: i16) -> (r: bool)
        requires
            self.wf(),
            valid_lat_lon(lat as int, lon as int),
        ensures
            r == (self.offset_spec(lat as int, lon as int) != 0),
    {
        let index = map_lat_lon_to_index(lat, lon);
        self.tile_map[index] != 0
    }

    /// The number of cells that hold a tile.
    pub fn tile_count(&self) -> (r: usize)
        ensures
            r == count_present(self.tile_map@),
    {
        count_tiles(&self.tile_map)
    }

    /// Where the cell's record starts, counted from the end of the prefix:
    /// `None` where the cell is absent, an error where the stored offset
    /// points into the prefix itself.
    pub fn record_start(&self, lat: i16, lon: i16) -> (r: Option<Result<usize, LoadError>>)
        requires
            self.wf(),
            valid_lat_lon(lat as int, lon as int),
        ensures
            ({
                let off = self.offset_spec(lat as int, lon as int);
                match r {
                    None => off == 0,
                    Some(Ok(s)) => off >= PREFIX_SIZE && s == off - PREFIX_SIZE,
                    Some(Err(LoadError::InvalidFileSize)) => 0 < off < PREFIX_SIZE || off
                        - PREFIX_SIZE > usize::MAX,
                    Some(Err(_)) => false,
                }
            }),
    {
        let index = map_lat_lon_to_index(lat, lon);
        let offset = self.tile_map[index];
        if offset == 0 {
            None
        } else if offset < PREFIX_SIZE as u64 || offset - PREFIX_SIZE as u64 > usize::MAX as u64 {
            Some(Err(LoadError::InvalidFileSize))
        } else {
            Some(Ok((offset - PREFIX_SIZE as u64) as usize))
        }
    }
}

/// The length an image frame declares: the little-endian size at bytes
/// 4..8 of its container, plus the eight bytes before that size's end.
pub open spec fn declared_len(b: Seq<u8>) -> int {
    spec_u32_from_le_bytes(b.subrange(4, 8)) + 8
}

/// A byte string that is exactly one image frame.
pub open spec fn is_image_frame(b: Seq<u8>) -> bool {
    b.len() >= 8 && declared_len(b) == b.len()
}

/// Splits the image frame that opens `b` from what follows it; `None` where
/// `b` is too short for the length it declares.
pub fn split_image_frame(b: &[u8]) -> (r: Option<(&[u8], &[u8])>)
    ensures
        match r {
            None => b@.len() < 8 || declared_len(b@) > b@.len(),
            Some((frame, rest)) => {
                &&& b@.len() >= 8
                &&& declared_len(b@) <= b@.len()
                &&& frame@ == b@.subrange(0, declared_len(b@))
                &&& rest@ == b@.subrange(declared_len(b@), b@.len() as int)
            },
        },
{
    if b.len() < 8 {
        return None;
    }
    let size = vstd::bytes::u32_from_le_bytes(slice_subrange(b, 4, 8));
    let len = size as u64 + 8;
    if len > b.len() as u64 {
        return None;
    }
    let len = len as usize;
    Some((slice_subrange(b, 0, len), slice_subrange(b, len, b.len())))
}

/// Whether `b` opens with a whole image frame.
pub open spec fn opens_with_frame(b: Seq<u8>) -> bool {
    b.len() >= 8 && declared_len(b) <= b.len()
}

/// Whether `rest` opens with two whole image frames, one after the other.
pub open spec fn opens_with_two_frames(rest: Seq<u8>) -> bool {
    opens_with_frame(rest) && opens_with_frame(rest.subrange(declared_len(rest), rest.len() as int))
}

/// Splits the water and hillshade frames that follow a record's elevation
/// frame; `rest` starts right after the elevation frame.
pub fn split_mask_frames(rest: &[u8]) -> (r: Option<(&[u8], &[u8])>)
    ensures
        r is Some <==> opens_with_two_frames(rest@),
        match r {
            None => true,
            Some((water, hillshade)) => is_image_frame(water@) && is_image_frame(hillshade@)
                && water@ + hillshade@ == rest@.subrange(0, (water@.len() + hillshade@.len()) as int),
        },
        (exists|w: Seq<u8>, h: Seq<u8>, tail: Seq<u8>|
            is_image_frame(w) && is_image_frame(h) && rest@ == w + h + tail) ==> r.is_some(),
{
    proof {
        if exists|w: Seq<u8>, h: Seq<u8>, tail: Seq<u8>|
            is_image_frame(w) && is_image_frame(h) && rest@ == w + h + tail {
            let (w, h, tail) = choose|w: Seq<u8>, h: Seq<u8>, tail: Seq<u8>|
                is_image_frame(w) && is_image_frame(h) && rest@ == w + h + tail;
            lemma_frames_split(w, h, tail);
        }
    }
    match split_image_frame(rest) {
        None => None,
        Some((water, after)) => match split_image_frame(after) {
            None => None,
            Some((hillshade, _)) => {
                assert(declared_len(rest@) >= 8);
                assert(water@.len() == declared_len(rest@));
                assert(water@.subrange(4, 8) =~= rest@.subrange(4, 8));
                assert(declared_len(after@) >= 8);
                assert(hillshade@.subrange(4, 8) =~= after@.subrange(4, 8));
                assert(water@ + hillshade@ =~= rest@.subrange(0, (water@.len() + hillshade@.len()) as int));
                Some((water, hillshade))
            },
        },
    }
}

/// Two image frames written one after the other are read back as the same
/// two frames, whatever follows them.
pub proof fn lemma_frames_split(w: Seq<u8>, h: Seq<u8>, tail: Seq<u8>)
    requires
        is_image_frame(w),
        is_image_frame(h),
    ensures
        declared_len(w + h + tail) == w.len(),
        (w + h + tail).subrange(0, w.len() as int) == w,
        declared_len((w + h + tail).subrange(w.len() as int, (w + h + tail).len() as int))
            == h.len(),
        (w + h + tail).subrange(w.len() as int, (w + h + tail).len() as int).subrange(
            0,
            h.len() as int,
        ) == h,
{
    let b = w + h + tail;
    assert(b.subrange(4, 8) =~= w.subrange(4, 8));
    assert(b.subrange(0, w.len() as int) =~= w);
    let after = b.subrange(w.len() as int, b.len() as int);
    assert(after =~= h + tail);
    assert(after.subrange(4, 8) =~= h.subrange(4, 8));
    assert(after.subrange(0, h.len() as int) =~= h);
}

/// Scales stored height samples back to metres above the water datum, as
/// `u16` arithmetic that wraps.
pub fn unmap_heights(raw: &[u16], height_resolution: u16) -> (r: Vec<u16>)
    ensures
        r@.len() == raw@.len(),
        forall|i: int|
            0 <= i < raw@.len() ==> #[trigger] r@[i] as int == (raw@[i] as int
                * height_resolution as int) % 65536,
{
    let mut out: Vec<u16> = Vec::with_capacity(raw.len());
    let mut i: usize = 0;
    while i < raw.len()
        invariant
            i <= raw@.len(),
            out@.len() == i,
            forall|j: int|
                0 <= j < i ==> #[trigger] out@[j] as int == (raw@[j] as int
                    * height_resolution as int) % 65536,
        decreases raw@.len() - i,
    {
        let x = raw[i] as u32;
        let y = height_resolution as u32;
        assert(x * y <= 65535 * 65535) by (nonlinear_arith)
            requires x <= 65535, y <= 65535;
        out.push(((x * y) % 65536) as u16);
        i = i + 1;
    }
    out
}

/// The compact form of a tile: the water mask folded into bit 15 of each
/// height sample.
pub fn pack_water(heights: &mut Vec<u16>, water: &[u8])
    requires
        old(heights)@.len() == water@.len(),
    ensures
        final(heights)@.len() == old(heights)@.len(),
        forall|i: int|
            0 <= i < water@.len() ==> #[trigger] final(heights)@[i] == (old(heights)@[i] | ((
            water@[i] as u16) << 15u16)),
{
    let mut i: usize = 0;
    while i < water.len()
        invariant
            i <= water@.len(),
            heights@.len() == water@.len(),
            forall|j: int|
                0 <= j < i ==> #[trigger] heights@[j] == (old(heights)@[j] | ((water@[j] as u16)
                    << 15u16)),
            forall|j: int| i <= j < water@.len() ==> #[trigger] heights@[j] == old(heights)@[j],
        decreases water@.len() - i,
    {
        let h = heights[i];
        heights.set(i, h | ((water[i] as u16) << 15u16));
        i = i + 1;
    }
}

} // verus!
