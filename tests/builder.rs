use terrain::builder::DatasetBuilder;
use terrain::cell::quantize_heights;
use terrain::dataset::{count_tiles, split_mask_frames, unmap_heights, Dataset};
use terrain::format::{TileMetadata, FORMAT_VERSION, HEADER_SIZE, PREFIX_SIZE};

fn meta(resolution: u16, height_resolution: u16) -> TileMetadata {
    TileMetadata { version: FORMAT_VERSION, resolution, height_resolution }
}

/// A container frame: `RIFF`, its size after the first eight bytes, payload.
fn frame(payload: &[u8]) -> Vec<u8> {
    let mut out = b"RIFF".to_vec();
    out.extend_from_slice(&(payload.len() as u32).to_le_bytes());
    out.extend_from_slice(payload);
    out
}

/// The file a caller keeps: the prefix, then each appended record; a flush
/// lays the table over bytes 32.. .
struct File {
    bytes: Vec<u8>,
}

impl File {
    fn create(builder: &DatasetBuilder) -> File {
        File { bytes: builder.prefix() }
    }

    fn add(&mut self, builder: &mut DatasetBuilder, lat: i16, lon: i16, e: &[u8], w: &[u8], h: &[u8]) {
        let end = self.bytes.len() as u64;
        let record = builder.add_tile(lat, lon, end, e, w, h);
        self.bytes.extend_from_slice(&record);
    }

    fn flush(&mut self, builder: &DatasetBuilder) {
        let table = builder.flush();
        self.bytes[HEADER_SIZE..HEADER_SIZE + table.len()].copy_from_slice(&table);
    }
}

#[test]
fn single_tile_round_trip() {
    let m = meta(4, 1);
    let mut builder = DatasetBuilder::new(m);
    let mut file = File::create(&builder);
    let elevation: Vec<u16> = (501..=516).collect();
    let stored = quantize_heights(&elevation, 1);
    assert_eq!(stored, elevation);
    let elevation_frame: Vec<u8> = stored.iter().flat_map(|x| x.to_le_bytes()).collect();
    let water = frame(&[0u8; 16]);
    let hillshade = frame(&[128u8; 16]);
    file.add(&mut builder, 0, 0, &elevation_frame, &water, &hillshade);
    file.flush(&builder);

    let dataset = Dataset::load(&file.bytes).ok().unwrap();
    assert!(dataset.metadata() == m);
    let start = dataset.record_start(0, 0).unwrap().ok().unwrap();
    assert_eq!(start, 0);
    let body = &file.bytes[PREFIX_SIZE..];
    let record = &body[start..];
    assert_eq!(&record[..elevation_frame.len()], &elevation_frame[..]);
    let (w, h) = split_mask_frames(&record[elevation_frame.len()..]).unwrap();
    assert_eq!(w, &water[..]);
    assert_eq!(h, &hillshade[..]);
    assert_eq!(unmap_heights(&stored, 1), elevation);
    assert!(dataset.record_start(0, 1).is_none());
}

#[test]
fn flush_twice_is_byte_identical() {
    let mut builder = DatasetBuilder::new(meta(4, 1));
    let mut file = File::create(&builder);
    file.add(&mut builder, 3, 4, &[9, 9], &frame(&[1]), &frame(&[2]));
    file.flush(&builder);
    let once = file.bytes.clone();
    file.flush(&builder);
    assert_eq!(once, file.bytes);
    assert_eq!(builder.flush(), builder.flush());
}

#[test]
fn resume_after_flush() {
    let m = meta(4, 50);
    let mut builder = DatasetBuilder::new(m);
    let mut file = File::create(&builder);
    file.add(&mut builder, 10, 10, &[1, 2, 3], &frame(&[0; 4]), &frame(&[7; 4]));
    file.add(&mut builder, -5, 30, &[4, 5], &frame(&[1; 4]), &frame(&[8; 4]));
    file.flush(&builder);
    drop(builder);

    let reader = Dataset::load(&file.bytes).ok().unwrap();
    assert_eq!(reader.tile_count(), 2);
    let mut builder = DatasetBuilder::from_dataset(reader);
    assert!(builder.tile_exists(10, 10));
    assert!(builder.tile_exists(-5, 30));
    assert!(!builder.tile_exists(0, 0));
    file.add(&mut builder, 0, 0, &[6], &frame(&[0; 4]), &frame(&[9; 4]));
    let table = builder.finish();
    file.bytes[HEADER_SIZE..HEADER_SIZE + table.len()].copy_from_slice(&table);

    let reader = Dataset::load(&file.bytes).ok().unwrap();
    assert_eq!(reader.tile_count(), 3);
    for (lat, lon, e) in [(10i16, 10i16, vec![1u8, 2, 3]), (-5, 30, vec![4, 5]), (0, 0, vec![6])] {
        let start = reader.record_start(lat, lon).unwrap().ok().unwrap();
        let record = &file.bytes[PREFIX_SIZE + start..];
        assert_eq!(&record[..e.len()], &e[..]);
        assert!(split_mask_frames(&record[e.len()..]).is_some());
    }
}

#[test]
fn tile_count_after_adds() {
    let mut builder = DatasetBuilder::new(meta(4, 1));
    assert_eq!(count_tiles(&builder.tile_map), 0);
    let end = PREFIX_SIZE as u64;
    builder.add_tile(1, 1, end, &[1], &[], &[]);
    builder.add_tile(2, 2, end + 1, &[1], &[], &[]);
    builder.add_tile(1, 1, end + 2, &[1], &[], &[]);
    assert_eq!(count_tiles(&builder.tile_map), 2);
}

#[test]
fn record_is_the_three_frames_in_order() {
    let mut builder = DatasetBuilder::new(meta(4, 1));
    let r = builder.add_tile(0, 0, 600000, &[1, 2], &[3], &[4, 5, 6]);
    assert_eq!(r, vec![1, 2, 3, 4, 5, 6]);
    assert_eq!(builder.tile_map[90 * 360 + 180], 600000);
}

#[test]
fn offset_inside_prefix_is_an_error() {
    let mut tile_map = vec![0u64; 64800];
    tile_map[0] = 100;
    let d = Dataset { metadata: meta(4, 1), tile_map };
    assert!(matches!(d.record_start(-90, -180), Some(Err(_))));
}

#[test]
fn truncated_frames_do_not_split() {
    let mut w = frame(&[1, 2, 3]);
    w.extend_from_slice(&frame(&[4, 5])[..8]);
    assert!(split_mask_frames(&w).is_none());
    assert!(split_mask_frames(&[1, 2]).is_none());
}

#[test]
fn record_then_commit() {
    let mut builder = DatasetBuilder::new(meta(4, 1));
    let r = DatasetBuilder::record(&[1], &[2, 3], &[4]);
    assert_eq!(r, vec![1, 2, 3, 4]);
    assert!(!builder.tile_exists(-5, 30));
    builder.commit_tile(-5, 30, 600000);
    assert!(builder.tile_exists(-5, 30));
    assert_eq!(count_tiles(&builder.tile_map), 1);
}
