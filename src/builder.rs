//! Building a dataset: the in-memory offset table, the record each added
//! tile appends, and the bytes each flush writes. The file itself, and the
//! lock that lets many threads add tiles, belong to the caller.

use vstd::prelude::*;

use crate::dataset::{
    count_present, declared_len, is_image_frame, lemma_count_update, lemma_count_zeros,
    lemma_frames_split, Dataset,
};
use crate::format::{
    header_spec, le16, lemma_empty_prefix, lemma_load_prefix, magic, lemma_table_spec, load_spec, prefix_bytes, prefix_spec,
    table_bytes, table_spec, LoadError, TileMetadata, FORMAT_VERSION, HEADER_SIZE, PREFIX_SIZE,
};
use crate::grid::{index_of, map_lat_lon_to_index, valid_lat_lon, CELL_COUNT};

verus! {

pub struct DatasetBuilder {
    pub metadata: TileMetadata,
    pub tile_map: Vec<u64>,
}

/// A file image after a flush: the offset table's bytes laid over the file
/// from byte 32 on.
pub open spec fn flushed(file: Seq<u8>, t: Seq<u64>) -> Seq<u8> {
    let b = table_spec(t);
    file.subrange(0, HEADER_SIZE as int) + b + file.subrange(
        HEADER_SIZE + b.len(),
        file.len() as int,
    )
}

/// Flushing twice with no tile added in between leaves the file exactly as
/// the first flush left it.
pub proof fn lemma_flush_idempotent(file: Seq<u8>, t: Seq<u64>)
    requires
        file.len() >= HEADER_SIZE + table_spec(t).len(),
    ensures
        flushed(flushed(file, t), t) == flushed(file, t),
{
    let b = table_spec(t);
    let once = flushed(file, t);
    assert(once.subrange(0, HEADER_SIZE as int) =~= file.subrange(0, HEADER_SIZE as int));
    assert(once.subrange(HEADER_SIZE + b.len(), once.len() as int) =~= file.subrange(
        HEADER_SIZE + b.len(),
        file.len() as int,
    ));
    assert(flushed(once, t) =~= once);
}

/// Resuming: a file begun for a new dataset, with any records appended and
/// then flushed with an offset table, loads again as the same metadata and
/// that table, so a builder made from it goes on with every tile added.
pub proof fn lemma_resume(m: TileMetadata, empty: Seq<u64>, t: Seq<u64>, records: Seq<u8>)
    requires
        m.version == FORMAT_VERSION,
        empty.len() == CELL_COUNT,
        t.len() == CELL_COUNT,
    ensures
        load_spec(flushed(prefix_spec(m, empty) + records, t)) == Ok::<
            (TileMetadata, Seq<u64>),
            LoadError,
        >((m, t)),
{
    lemma_table_spec(empty);
    lemma_table_spec(t);
    let file = prefix_spec(m, empty) + records;
    let h = header_spec(m);
    assert(h.len() == HEADER_SIZE);
    assert(file.subrange(0, HEADER_SIZE as int) =~= h);
    assert(file.subrange(HEADER_SIZE + table_spec(t).len(), file.len() as int) =~= records);
    assert(flushed(file, t) =~= prefix_spec(m, t) + records);
    lemma_load_prefix(m, t, records);
}

/// Reading a tile back: a record appended at the end of a file begun for a
/// new dataset, with an offset table that points the cell there and is then
/// flushed, loads with that table; the bytes at the cell's offset are the
/// record; and the water and hillshade frames after the elevation frame
/// split out exactly as written, whatever is appended later.
pub proof fn lemma_tile_round_trip(
    m: TileMetadata,
    empty: Seq<u64>,
    records: Seq<u8>,
    t: Seq<u64>,
    index: int,
    elevation: Seq<u8>,
    water: Seq<u8>,
    hillshade: Seq<u8>,
    later: Seq<u8>,
)
    requires
        m.version == FORMAT_VERSION,
        empty.len() == CELL_COUNT,
        t.len() == CELL_COUNT,
        0 <= index < CELL_COUNT,
        t[index] == PREFIX_SIZE + records.len(),
        is_image_frame(water),
        is_image_frame(hillshade),
    ensures
        ({
            let file = flushed(
                prefix_spec(m, empty) + records + (elevation + water + hillshade) + later,
                t,
            );
            let rest = file.subrange(t[index] + elevation.len(), file.len() as int);
            &&& load_spec(file) == Ok::<(TileMetadata, Seq<u64>), LoadError>((m, t))
            &&& file.subrange(t[index] as int, t[index] + elevation.len()) == elevation
            &&& declared_len(rest) == water.len()
            &&& rest.subrange(0, water.len() as int) == water
            &&& declared_len(rest.subrange(water.len() as int, rest.len() as int))
                == hillshade.len()
            &&& rest.subrange(water.len() as int, rest.len() as int).subrange(
                0,
                hillshade.len() as int,
            ) == hillshade
        }),
{
    let tail = records + (elevation + water + hillshade) + later;
    lemma_resume(m, empty, t, tail);
    lemma_table_spec(empty);
    lemma_table_spec(t);
    let file0 = prefix_spec(m, empty) + records + (elevation + water + hillshade) + later;
    assert(file0 =~= prefix_spec(m, empty) + tail);
    let file = flushed(file0, t);
    assert(header_spec(m).len() == HEADER_SIZE);
    assert(file.subrange(0, HEADER_SIZE as int) =~= header_spec(m));
    assert(file =~= prefix_spec(m, t) + tail);
    let at = t[index] as int;
    assert(prefix_spec(m, t).len() == PREFIX_SIZE);
    let after = file.subrange(at, file.len() as int);
    assert(after =~= elevation + water + hillshade + later);
    assert(file.subrange(at, at + elevation.len()) =~= elevation);
    let rest = file.subrange(at + elevation.len(), file.len() as int);
    assert(rest =~= water + hillshade + later);
    lemma_frames_split(water, hillshade, later);
}

/// The table after offsets `offsets[k]` were written for cells `cells[k]`, in order.
pub open spec fn after_adds(t: Seq<u64>, cells: Seq<int>, offsets: Seq<u64>) -> Seq<u64>
    decreases cells.len(),
{
    if cells.len() == 0 || offsets.len() < cells.len() {
        t
    } else {
        after_adds(t, cells.drop_last(), offsets).update(cells.last(), offsets[cells.len() - 1])
    }
}

/// Adding tiles at `k` distinct cells to an empty table, each at a non-zero
/// offset, leaves exactly `k` tiles; cells not added keep their entry.
pub proof fn lemma_count_after_adds(t: Seq<u64>, cells: Seq<int>, offsets: Seq<u64>)
    requires
        t.len() == CELL_COUNT,
        forall|i: int| 0 <= i < t.len() ==> #[trigger] t[i] == 0,
        offsets.len() >= cells.len(),
        forall|k: int| 0 <= k < cells.len() ==> 0 <= #[trigger] cells[k] < CELL_COUNT,
        forall|k: int| 0 <= k < cells.len() ==> #[trigger] offsets[k] != 0,
        forall|k: int, l: int| 0 <= k < l < cells.len() ==> #[trigger] cells[k] != #[trigger] cells[l],
    ensures
        after_adds(t, cells, offsets).len() == CELL_COUNT,
        count_present(after_adds(t, cells, offsets)) == cells.len(),
        forall|c: int|
            0 <= c < CELL_COUNT && !cells.contains(c) ==> #[trigger] after_adds(t, cells, offsets)[c]
                == 0,
    decreases cells.len(),
{
    if cells.len() == 0 {
        lemma_count_zeros(t);
    } else {
        let p = cells.drop_last();
        lemma_count_after_adds(t, p, offsets);
        let before = after_adds(t, p, offsets);
        let c = cells.last();
        assert(!p.contains(c)) by {
            if p.contains(c) {
                let k = choose|k: int| 0 <= k < p.len() && p[k] == c;
                assert(cells[k] != cells[cells.len() - 1]);
            }
        }
        lemma_count_update(before, c, offsets[cells.len() - 1]);
        assert forall|x: int| 0 <= x < CELL_COUNT && !cells.contains(x) implies #[trigger] after_adds(t, cells, offsets)[x] == 0 by {
            if p.contains(x) {
                let k = choose|k: int| 0 <= k < p.len() && p[k] == x;
                assert(cells[k] == x);
            }
            assert(x != c);
        }
    }
}

impl DatasetBuilder {
    pub open spec fn wf(&self) -> bool {
        self.tile_map@.len() == CELL_COUNT
    }

    /// A builder for a new, empty dataset. Only the current format version
    /// can be built.
    pub fn new(metadata: TileMetadata) -> (r: DatasetBuilder)
        requires
            metadata.version == FORMAT_VERSION,
        ensures
            r.wf(),
            r.metadata == metadata,
            forall|i: int| 0 <= i < CELL_COUNT ==> #[trigger] r.tile_map@[i] == 0,
            count_present(r.tile_map@) == 0,
    {
        let tile_map: Vec<u64> = vec![0u64; CELL_COUNT];
        proof { lemma_count_zeros(tile_map@); }
        DatasetBuilder { metadata, tile_map }
    }

    /// A builder that goes on from an existing dataset, with its offset table.
    pub fn from_dataset(dataset: Dataset) -> (r: DatasetBuilder)
        ensures
            r.metadata == dataset.metadata,
            r.tile_map@ == dataset.tile_map@,
    {
        DatasetBuilder { metadata: dataset.metadata, tile_map: dataset.tile_map }
    }

    /// The header and offset table, as a new file starts.
    pub fn prefix(&self) -> (r: Vec<u8>)
        ensures
            r@ == prefix_spec(self.metadata, self.tile_map@),
            (forall|i: int| 0 <= i < self.tile_map@.len() ==> #[trigger] self.tile_map@[i] == 0)
                && self.wf() ==> {
                &&& r@.len() == PREFIX_SIZE
                &&& r@.subrange(0, 11) == magic() + le16(self.metadata.version) + le16(
                    self.metadata.resolution,
                ) + le16(self.metadata.height_resolution)
                &&& forall|i: int| 11 <= i < PREFIX_SIZE ==> #[trigger] r@[i] == 0
            },
    {
        proof {
            if (forall|i: int| 0 <= i < self.tile_map@.len() ==> #[trigger] self.tile_map@[i] == 0)
                && self.wf() {
                lemma_empty_prefix(self.metadata, self.tile_map@);
            }
        }
        prefix_bytes(self.metadata, &self.tile_map)
    }

    pub fn tile_exists(&self, lat: i16, lon: i16) -> (r: bool)
        requires
            self.wf(),
            valid_lat_lon(lat as int, lon as int),
        ensures
            r == (self.tile_map@[index_of(lat as int, lon as int)] != 0),
    {
        let index = map_lat_lon_to_index(lat, lon);
        self.tile_map[index] != 0
    }

    /// Records a tile whose record is appended at `file_end`, the current end
    /// of the file, and returns the record: the elevation, water and
    /// hillshade frames, in that order and contiguous.
    pub fn add_tile(
        &mut self,
        lat: i16,
        lon: i16,
        file_end: u64,
        elevation: &[u8],
        water: &[u8],
        hillshade: &[u8],
    ) -> (r: Vec<u8>)
        requires
            old(self).wf(),
            valid_lat_lon(lat as int, lon as int),
            file_end >= PREFIX_SIZE,
        ensures
            final(self).wf(),
            final(self).metadata == old(self).metadata,
            final(self).tile_map@ == old(self).tile_map@.update(
                index_of(lat as int, lon as int),
                file_end,
            ),
            r@ == elevation@ + water@ + hillshade@,
            count_present(final(self).tile_map@) == count_present(old(self).tile_map@) + if old(
                self,
            ).tile_map@[index_of(lat as int, lon as int)] == 0 {
                1int
            } else {
                0int
            },
    {
        let record = Self::record(elevation, water, hillshade);
        self.commit_tile(lat, lon, file_end);
        record
    }

    /// A tile record: the elevation, water and hillshade frames, in that
    /// order and contiguous.
    pub fn record(elevation: &[u8], water: &[u8], hillshade: &[u8]) -> (r: Vec<u8>)
        ensures
            r@ == elevation@ + water@ + hillshade@,
    {
        let mut record: Vec<u8> = Vec::new();
        append_slice(&mut record, elevation);
        append_slice(&mut record, water);
        append_slice(&mut record, hillshade);
        record
    }

    /// Points the cell at its record once the record is written at `offset`.
    pub fn commit_tile(&mut self, lat: i16, lon: i16, offset: u64)
        requires
            old(self).wf(),
            valid_lat_lon(lat as int, lon as int),
            offset >= PREFIX_SIZE,
        ensures
            final(self).wf(),
            final(self).metadata == old(self).metadata,
            final(self).tile_map@ == old(self).tile_map@.update(index_of(lat as int, lon as int), offset),
            count_present(final(self).tile_map@) == count_present(old(self).tile_map@) + if old(
                self,
            ).tile_map@[index_of(lat as int, lon as int)] == 0 {
                1int
            } else {
                0int
            },
    {
        let index = map_lat_lon_to_index(lat, lon);
        proof { lemma_count_update(self.tile_map@, index as int, offset); }
        self.tile_map.set(index, offset);
    }

    /// The offset table's bytes, which a flush writes from byte 32 on.
    pub fn flush(&self) -> (r: Vec<u8>)
        ensures
            r@ == table_spec(self.tile_map@),
    {
        table_bytes(&self.tile_map)
    }

    /// The last flush.
    pub fn finish(self) -> (r: Vec<u8>)
        ensures
            r@ == table_spec(self.tile_map@),
    {
        self.flush()
    }
}

fn append_slice(out: &mut Vec<u8>, b: &[u8])
    ensures
        final(out)@ == old(out)@ + b@,
{
    let mut i: usize = 0;
    while i < b.len()
        invariant
            i <= b@.len(),
            out@ == old(out)@ + b@.subrange(0, i as int),
        decreases b@.len() - i,
    {
        out.push(b[i]);
        i = i + 1;
        assert(out@ =~= old(out)@ + b@.subrange(0, i as int));
    }
    assert(b@.subrange(0, b@.len() as int) =~= b@);
}

} // verus!
