use terrain::builder::DatasetBuilder;
use terrain::dataset::Dataset;
use terrain::format::{load_prefix, LoadError, TileMetadata, FORMAT_VERSION, PREFIX_SIZE};

fn meta(resolution: u16, height_resolution: u16) -> TileMetadata {
    TileMetadata { version: FORMAT_VERSION, resolution, height_resolution }
}

#[test]
fn new_dataset_prefix_is_exact() {
    let builder = DatasetBuilder::new(meta(0x1234, 0xabcd));
    let bytes = builder.prefix();
    assert_eq!(bytes.len(), 518432);
    assert_eq!(&bytes[0..11], &[0x73, 0x75, 0x73, 0x73, 0x79, 0x08, 0x00, 0x34, 0x12, 0xcd, 0xab]);
    assert!(bytes[11..].iter().all(|&b| b == 0));
}

#[test]
fn prefix_loads_back() {
    let mut builder = DatasetBuilder::new(meta(4, 1));
    builder.add_tile(10, 10, PREFIX_SIZE as u64, &[1], &[2], &[3]);
    let bytes = builder.prefix();
    let (m, table) = load_prefix(&bytes).ok().unwrap();
    assert!(m == meta(4, 1));
    assert_eq!(table.len(), 64800);
    assert_eq!(table[100 * 360 + 190], PREFIX_SIZE as u64);
    assert_eq!(table.iter().filter(|&&x| x != 0).count(), 1);
}

#[test]
fn short_file_is_invalid_size() {
    let bytes = DatasetBuilder::new(meta(4, 1)).prefix();
    assert!(matches!(Dataset::load(&bytes[..PREFIX_SIZE - 1]), Err(LoadError::InvalidFileSize)));
    assert!(matches!(Dataset::load(&[]), Err(LoadError::InvalidFileSize)));
}

#[test]
fn wrong_magic_is_rejected() {
    let mut bytes = DatasetBuilder::new(meta(4, 1)).prefix();
    bytes[2] = b'x';
    assert!(matches!(Dataset::load(&bytes), Err(LoadError::InvalidMagic)));
}

#[test]
fn other_version_is_rejected() {
    let mut bytes = DatasetBuilder::new(meta(4, 1)).prefix();
    bytes[5] = 7;
    assert!(matches!(Dataset::load(&bytes), Err(LoadError::UnsupportedFormatVersion)));
    bytes[5] = 9;
    assert!(matches!(Dataset::load(&bytes), Err(LoadError::UnsupportedFormatVersion)));
}

#[test]
fn io_error_converts() {
    let e = std::io::Error::new(std::io::ErrorKind::Other, "disk");
    assert!(matches!(LoadError::from(e), LoadError::Io(_)));
}

#[test]
fn tile_count_counts_non_zero_offsets() {
    let mut tile_map = vec![0u64; 64800];
    tile_map[0] = 600000;
    tile_map[5] = 700000;
    tile_map[64799] = 800000;
    let d = Dataset { metadata: meta(4, 1), tile_map };
    assert_eq!(d.tile_count(), 3);
    assert!(d.tile_exists(-90, -180));
    assert!(!d.tile_exists(-90, -179));
    assert!(d.tile_exists(89, 179));
}
