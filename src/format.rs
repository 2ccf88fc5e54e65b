//! The on-disk layout of a terrain dataset: a 32-byte header followed by an
//! offset table of 64800 little-endian `u64`s, then the tile records.

use vstd::bytes::{
    lemma_auto_spec_u64_to_from_le_bytes, spec_u64_from_le_bytes, spec_u64_to_le_bytes,
    u64_from_le_bytes, u64_to_le_bytes,
};
use vstd::prelude::*;
use vstd::slice::slice_subrange;

use crate::grid::CELL_COUNT;

verus! {

/// The only format version this library reads and writes.
pub const FORMAT_VERSION: u16 = 8;

/// Size of the fixed header.
pub const HEADER_SIZE: usize = 32;

/// Size of the offset table: one `u64` per cell.
pub const TABLE_SIZE: usize = 518400;

/// Size of header and offset table together; tile records start here.
pub const PREFIX_SIZE: usize = 518432;

#[derive(Copy, Clone, Debug, PartialEq, Eq, Structural)]
pub struct TileMetadata {
    /// The file format version.
    pub version: u16,
    /// The length of the side of the square tile.
    pub resolution: u16,
    /// The multiplier for the raw stored values.
    pub height_resolution: u16,
}

/// Declares std's I/O error so that a load error can carry one; nothing is
/// assumed of its contents.
#[verifier::external_type_specification]
#[verifier::external_body]
pub struct ExIoError(std::io::Error);

#[derive(Debug)]
pub enum LoadError {
    InvalidFileSize,
    InvalidMagic,
    UnsupportedFormatVersion,
    Io(std::io::Error),
}

impl From<std::io::Error> for LoadError {
    fn from(e: std::io::Error) -> (r: LoadError)
        ensures
            r == LoadError::Io(e),
    {
        LoadError::Io(e)
    }
}

impl vstd::std_specs::convert::FromSpecImpl<std::io::Error> for LoadError {
    open spec fn obeys_from_spec() -> bool {
        true
    }

    open spec fn from_spec(e: std::io::Error) -> LoadError {
        LoadError::Io(e)
    }
}

/// The five bytes `s u s s y` that open every dataset.
pub open spec fn magic() -> Seq<u8> {
    seq![115u8, 117u8, 115u8, 115u8, 121u8]
}

/// A `u16` as two little-endian bytes.
pub open spec fn le16(x: u16) -> Seq<u8> {
    seq![(x % 256) as u8, (x / 256) as u8]
}

/// The 32-byte header for a metadata record: magic, version, resolution and
/// height resolution, each `u16` little-endian, then 21 zero bytes.
pub open spec fn header_spec(m: TileMetadata) -> Seq<u8> {
    magic() + le16(m.version) + le16(m.resolution)
        + le16(m.height_resolution) + Seq::new(21, |i: int| 0u8)
}

/// The offset table as bytes: each entry as eight little-endian bytes, in order.
pub open spec fn table_spec(t: Seq<u64>) -> Seq<u8>
    decreases t.len(),
{
    if t.len() == 0 {
        Seq::empty()
    } else {
        table_spec(t.drop_last()) + spec_u64_to_le_bytes(t.last())
    }
}

/// The bytes a new or flushed dataset starts with.
pub open spec fn prefix_spec(m: TileMetadata, t: Seq<u64>) -> Seq<u8> {
    header_spec(m) + table_spec(t)
}

pub open spec fn u16_at(b: Seq<u8>, at: int) -> u16 {
    (b[at] + 256 * b[at + 1]) as u16
}

/// The offset table read from the bytes of a file that starts with a full prefix.
pub open spec fn table_of(b: Seq<u8>) -> Seq<u64> {
    Seq::new(
        CELL_COUNT as nat,
        |i: int| spec_u64_from_le_bytes(b.subrange(HEADER_SIZE + 8 * i, HEADER_SIZE + 8 * i + 8)),
    )
}

/// The metadata a header holds.
pub open spec fn metadata_of(b: Seq<u8>) -> TileMetadata {
    TileMetadata { version: u16_at(b, 5), resolution: u16_at(b, 7), height_resolution: u16_at(b, 9) }
}

/// What reading the start of a file gives: too short, wrong magic, wrong
/// version, or the metadata and offset table.
pub open spec fn load_spec(b: Seq<u8>) -> Result<(TileMetadata, Seq<u64>), LoadError> {
    if b.len() < PREFIX_SIZE {
        Err(LoadError::InvalidFileSize)
    } else if b.subrange(0, 5) != magic() {
        Err(LoadError::InvalidMagic)
    } else if u16_at(b, 5) != FORMAT_VERSION {
        Err(LoadError::UnsupportedFormatVersion)
    } else {
        Ok((metadata_of(b), table_of(b)))
    }
}

pub proof fn lemma_table_spec(t: Seq<u64>)
    ensures
        table_spec(t).len() == 8 * t.len(),
        forall|i: int|
            0 <= i < t.len() ==> #[trigger] table_spec(t).subrange(8 * i, 8 * i + 8)
                == spec_u64_to_le_bytes(t[i]),
    decreases t.len(),
{
    lemma_auto_spec_u64_to_from_le_bytes();
    if t.len() > 0 {
        let p = t.drop_last();
        lemma_table_spec(p);
        let whole = table_spec(t);
        assert forall|i: int| 0 <= i < t.len() implies #[trigger] whole.subrange(8 * i, 8 * i + 8)
            == spec_u64_to_le_bytes(t[i]) by {
            if i < p.len() {
                assert(whole.subrange(8 * i, 8 * i + 8) =~= table_spec(p).subrange(8 * i, 8 * i + 8));
                assert(p[i] == t[i]);
            } else {
                assert(whole.subrange(8 * i, 8 * i + 8) =~= spec_u64_to_le_bytes(t.last()));
            }
        }
    }
}

/// Reading back what was written: a file that starts with a prefix built
/// from a metadata record of the current version and a full offset table
/// loads as that record and table, whatever follows the prefix.
pub proof fn lemma_load_prefix(m: TileMetadata, t: Seq<u64>, tail: Seq<u8>)
    requires
        m.version == FORMAT_VERSION,
        t.len() == CELL_COUNT,
    ensures
        load_spec(prefix_spec(m, t) + tail) == Ok::<(TileMetadata, Seq<u64>), LoadError>((m, t)),
{
    lemma_auto_spec_u64_to_from_le_bytes();
    lemma_table_spec(t);
    let b = prefix_spec(m, t) + tail;
    let h = header_spec(m);
    assert(h.len() == 32);
    assert(b.subrange(0, 5) =~= magic());
    assert(b.subrange(5, 7) =~= le16(m.version));
    assert(b.subrange(7, 9) =~= le16(m.resolution));
    assert(b.subrange(9, 11) =~= le16(m.height_resolution));
    assert(metadata_of(b) == m);
    assert forall|i: int| 0 <= i < t.len() implies #[trigger] table_of(b)[i] == t[i] by {
        assert(b.subrange(32 + 8 * i, 32 + 8 * i + 8) =~= table_spec(t).subrange(8 * i, 8 * i + 8));
    }
    assert(table_of(b) =~= t);
}

/// The start of a new dataset: magic, version, resolution and height
/// resolution, then nothing but zero bytes up to the end of the offset table.
pub proof fn lemma_empty_prefix(m: TileMetadata, t: Seq<u64>)
    requires
        t.len() == CELL_COUNT,
        forall|i: int| 0 <= i < t.len() ==> #[trigger] t[i] == 0,
    ensures
        prefix_spec(m, t).len() == PREFIX_SIZE,
        prefix_spec(m, t).subrange(0, 11) == magic() + le16(m.version) + le16(m.resolution) + le16(
            m.height_resolution,
        ),
        forall|i: int| 11 <= i < PREFIX_SIZE ==> #[trigger] prefix_spec(m, t)[i] == 0,
{
    lemma_table_spec(t);
    let b = prefix_spec(m, t);
    let tb = table_spec(t);
    vstd::bytes::spec_u64_to_le_bytes_to_open(0u64);
    assert(spec_u64_to_le_bytes(0u64) =~= Seq::new(8, |i: int| 0u8)) by {
        assert((0u64 & 0xff) as u8 == 0u8) by (bit_vector);
        assert(((0u64 >> 8u64) & 0xff) as u8 == 0u8) by (bit_vector);
        assert(((0u64 >> 16u64) & 0xff) as u8 == 0u8) by (bit_vector);
        assert(((0u64 >> 24u64) & 0xff) as u8 == 0u8) by (bit_vector);
        assert(((0u64 >> 32u64) & 0xff) as u8 == 0u8) by (bit_vector);
        assert(((0u64 >> 40u64) & 0xff) as u8 == 0u8) by (bit_vector);
        assert(((0u64 >> 48u64) & 0xff) as u8 == 0u8) by (bit_vector);
        assert(((0u64 >> 56u64) & 0xff) as u8 == 0u8) by (bit_vector);
    }
    assert(b.subrange(0, 11) =~= magic() + le16(m.version) + le16(m.resolution) + le16(
        m.height_resolution,
    ));
    assert forall|i: int| 11 <= i < PREFIX_SIZE implies #[trigger] b[i] == 0 by {
        if i >= 32 {
            let j = i - 32;
            let k = j / 8;
            vstd::arithmetic::div_mod::lemma_fundamental_div_mod(j, 8);
            assert(0 <= k < t.len());
            assert(tb.subrange(8 * k, 8 * k + 8) == spec_u64_to_le_bytes(t[k]));
            assert(tb.subrange(8 * k, 8 * k + 8)[j % 8] == tb[j]);
        }
    }
}

/// Appends the offset table to `out`, entry by entry.
fn push_table(out: &mut Vec<u8>, t: &Vec<u64>)
    ensures
        final(out)@ == old(out)@ + table_spec(t@),
{
    let mut i: usize = 0;
    while i < t.len()
        invariant
            i <= t.len(),
            out@ == old(out)@ + table_spec(t@.subrange(0, i as int)),
        decreases t.len() - i,
    {
        let ghost before = out@;
        let mut bytes = u64_to_le_bytes(t[i]);
        proof {
            let next = t@.subrange(0, i + 1);
            assert(next.drop_last() =~= t@.subrange(0, i as int));
            assert(next.last() == t@[i as int]);
            assert(table_spec(next) == table_spec(t@.subrange(0, i as int)) + spec_u64_to_le_bytes(t@[i as int]));
        }
        out.append(&mut bytes);
        i = i + 1;
        assert(out@ =~= old(out)@ + table_spec(t@.subrange(0, i as int)));
    }
    assert(t@.subrange(0, t.len() as int) =~= t@);
}

/// The bytes of the offset table, as a flush writes them after the header.
pub fn table_bytes(t: &Vec<u64>) -> (r: Vec<u8>)
    ensures
        r@ == table_spec(t@),
        r@.len() == 8 * t@.len(),
{
    proof { lemma_table_spec(t@); }
    let mut out: Vec<u8> = Vec::new();
    push_table(&mut out, t);
    assert(out@ =~= table_spec(t@));
    out
}

/// The header followed by the offset table: what a new dataset file holds
/// before any tile is added.
pub fn prefix_bytes(m: TileMetadata, t: &Vec<u64>) -> (r: Vec<u8>)
    ensures
        r@ == prefix_spec(m, t@),
{
    let mut out: Vec<u8> = Vec::new();
    out.push(115u8);
    out.push(117u8);
    out.push(115u8);
    out.push(115u8);
    out.push(121u8);
    out.push((m.version % 256) as u8);
    out.push((m.version / 256) as u8);
    out.push((m.resolution % 256) as u8);
    out.push((m.resolution / 256) as u8);
    out.push((m.height_resolution % 256) as u8);
    out.push((m.height_resolution / 256) as u8);
    assert(out@ =~= magic() + le16(m.version) + le16(m.resolution) + le16(m.height_resolution)
        + Seq::new(0, |i: int| 0u8));
    let mut k: usize = 0;
    while k < 21
        invariant
            k <= 21,
            out@ == magic() + le16(m.version) + le16(m.resolution)
                + le16(m.height_resolution) + Seq::new(k as nat, |i: int| 0u8),
        decreases 21 - k,
    {
        out.push(0u8);
        k = k + 1;
        assert(out@ =~= magic() + le16(m.version) + le16(m.resolution)
            + le16(m.height_resolution) + Seq::new(k as nat, |i: int| 0u8));
    }
    assert(out@ =~= header_spec(m));
    push_table(&mut out, t);
    out
}

/// Reads the metadata and offset table from the start of a file.
pub fn load_prefix(b: &[u8]) -> (r: Result<(TileMetadata, Vec<u64>), LoadError>)
    ensures
        match (r, load_spec(b@)) {
            (Ok((m, t)), Ok((sm, st))) => m == sm && t@ == st,
            (Err(LoadError::InvalidFileSize), Err(LoadError::InvalidFileSize)) => true,
            (Err(LoadError::InvalidMagic), Err(LoadError::InvalidMagic)) => true,
            (Err(LoadError::UnsupportedFormatVersion), Err(LoadError::UnsupportedFormatVersion)) => true,
            _ => false,
        },
{
    if b.len() < PREFIX_SIZE {
        return Err(LoadError::InvalidFileSize);
    }
    if b[0] != 115u8 || b[1] != 117u8 || b[2] != 115u8 || b[3] != 115u8 || b[4] != 121u8 {
        assert(b@.subrange(0, 5) != magic()) by {
            if b@.subrange(0, 5) == magic() {
                assert(b@.subrange(0, 5)[0] == b@[0]);
                assert(b@.subrange(0, 5)[1] == b@[1]);
                assert(b@.subrange(0, 5)[2] == b@[2]);
                assert(b@.subrange(0, 5)[3] == b@[3]);
                assert(b@.subrange(0, 5)[4] == b@[4]);
            }
        }
        return Err(LoadError::InvalidMagic);
    }
    assert(b@.subrange(0, 5) =~= magic());
    let version = b[5] as u16 + 256 * (b[6] as u16);
    if version != FORMAT_VERSION {
        return Err(LoadError::UnsupportedFormatVersion);
    }
    let resolution = b[7] as u16 + 256 * (b[8] as u16);
    let height_resolution = b[9] as u16 + 256 * (b[10] as u16);
    let metadata = TileMetadata { version, resolution, height_resolution };
    let mut table: Vec<u64> = Vec::with_capacity(CELL_COUNT);
    let mut i: usize = 0;
    while i < CELL_COUNT
        invariant
            i <= CELL_COUNT,
            b@.len() >= PREFIX_SIZE,
            table@ =~= table_of(b@).subrange(0, i as int),
        decreases CELL_COUNT - i,
    {
        let at = HEADER_SIZE + 8 * i;
        let entry = u64_from_le_bytes(slice_subrange(b, at, at + 8));
        table.push(entry);
        i = i + 1;
    }
    Ok((metadata, table))
}

} // verus!
