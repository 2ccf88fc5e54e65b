use terrain::cache::{feedback_from_bytes, select_dataset, TileCache, TileOffset, UploadStatus};
use terrain::dataset::Dataset;
use terrain::format::{TileMetadata, FORMAT_VERSION, PREFIX_SIZE};
use terrain::grid::map_lat_lon_to_index;

fn full_dataset(resolution: u16) -> Dataset {
    Dataset {
        metadata: TileMetadata { version: FORMAT_VERSION, resolution, height_resolution: 1 },
        tile_map: vec![PREFIX_SIZE as u64; 64800],
    }
}

fn used_cells(cells: &[(i16, i16)]) -> Vec<u32> {
    let mut used = vec![0u32; 64800];
    for &(lat, lon) in cells {
        used[map_lat_lon_to_index(lat, lon)] = 1;
    }
    used
}

fn unloaded(cache: &TileCache) -> TileOffset {
    cache.atlas.unloaded()
}

#[test]
fn select_dataset_takes_last_reached() {
    assert_eq!(select_dataset(&[]), 0);
    assert_eq!(select_dataset(&[false, false]), 0);
    assert_eq!(select_dataset(&[true, false]), 0);
    assert_eq!(select_dataset(&[true, true, false]), 1);
    assert_eq!(select_dataset(&[true, false, true]), 2);
}

#[test]
fn lod_switch_invalidates_cache() {
    let mut cache = TileCache::new(vec![full_dataset(512), full_dataset(1200)], 16384);
    let used = used_cells(&[(0, 0), (1, 1)]);
    let (status, uploads) = cache.populate_tiles(&used, 0, 16384);
    assert_eq!(status, UploadStatus::Uploads);
    assert_eq!(uploads.len(), 2);
    assert_eq!(cache.atlas.curr_dataset, 0);
    assert_eq!(cache.tile_size(), 512);

    let selected = select_dataset(&[true, true]);
    assert!(cache.atlas.needs_clear(selected));
    let (status, uploads) = cache.populate_tiles(&vec![0u32; 64800], selected, 16384);
    assert_eq!(status, UploadStatus::NoUploads);
    assert!(uploads.is_empty());
    assert_eq!(cache.atlas.curr_dataset, 1);
    assert_eq!(cache.tile_size(), 1200);
    let u = unloaded(&cache);
    assert!(cache.tiles.iter().all(|&t| t == u));
}

#[test]
fn eviction_recycles_slots() {
    let mut cache = TileCache::new(vec![full_dataset(2048)], 16384);
    assert_eq!((cache.atlas.width, cache.atlas.height), (4096, 4096));
    let first = [(0i16, 0i16), (0, 1), (1, 0), (1, 1)];
    let (status, uploads) = cache.populate_tiles(&used_cells(&first), 0, 16384);
    assert_eq!(status, UploadStatus::Uploads);
    assert_eq!(uploads.len(), 4);
    let origins: Vec<TileOffset> = uploads.iter().map(|u| u.origin).collect();
    for o in &origins {
        assert!(o.x < 4096 && o.y < 4096);
    }
    for i in 0..4 {
        for j in i + 1..4 {
            assert!(origins[i] != origins[j]);
        }
    }

    let kept = map_lat_lon_to_index(0, 0);
    let kept_origin = cache.tiles[kept];
    let (status, uploads) = cache.populate_tiles(&used_cells(&[(0, 0), (-50, -100)]), 0, 16384);
    assert_eq!(status, UploadStatus::Uploads);
    assert_eq!(uploads.len(), 1);
    let new_cell = map_lat_lon_to_index(-50, -100);
    assert_eq!(uploads[0].index, new_cell);
    assert!(origins.contains(&uploads[0].origin));
    assert!(uploads[0].origin != kept_origin);
    assert_eq!(cache.tiles[new_cell], uploads[0].origin);
    assert_eq!(cache.tiles[kept], kept_origin);
    assert_eq!(cache.atlas.collected_tiles.len(), 2);
    let u = unloaded(&cache);
    for &(lat, lon) in &first[1..] {
        assert_eq!(cache.tiles[map_lat_lon_to_index(lat, lon)], u);
    }
}

#[test]
fn full_atlas_grows() {
    let mut cache = TileCache::new(vec![full_dataset(2048)], 16384);
    let cells = [(0i16, 0i16), (0, 1), (1, 0), (1, 1), (2, 2)];
    let used = used_cells(&cells);
    let (status, uploads) = cache.populate_tiles(&used, 0, 16384);
    assert_eq!(status, UploadStatus::Resized);
    assert!(uploads.is_empty());
    assert_eq!((cache.atlas.width, cache.atlas.height), (8192, 8192));
    let u = unloaded(&cache);
    assert_eq!(u, TileOffset { x: 0, y: 8192 });
    assert!(cache.tiles.iter().all(|&t| t == u));

    let (status, uploads) = cache.populate_tiles(&used, 0, 16384);
    assert_eq!(status, UploadStatus::Uploads);
    assert_eq!(uploads.len(), 5);
}

#[test]
fn growth_is_capped_by_device_limit() {
    let mut cache = TileCache::new(vec![full_dataset(2048)], 6144);
    assert_eq!((cache.atlas.width, cache.atlas.height), (4096, 4096));
    let used = used_cells(&[(0, 0), (0, 1), (1, 0), (1, 1), (2, 2)]);
    let (status, _) = cache.populate_tiles(&used, 0, 6144);
    assert_eq!(status, UploadStatus::Resized);
    assert_eq!((cache.atlas.width, cache.atlas.height), (6144, 6144));
}

#[test]
fn full_atlas_at_limit_reports_full() {
    let mut cache = TileCache::new(vec![full_dataset(2048)], 4096);
    let used = used_cells(&[(0, 0), (0, 1), (1, 0), (1, 1), (2, 2)]);
    let (status, uploads) = cache.populate_tiles(&used, 0, 4096);
    assert_eq!(status, UploadStatus::AtlasFull);
    assert_eq!(uploads.len(), 4);
    assert_eq!((cache.atlas.width, cache.atlas.height), (4096, 4096));
}

#[test]
fn absent_tile_is_marked_not_found_and_kept() {
    let mut d = full_dataset(4);
    let missing = map_lat_lon_to_index(5, 5);
    d.tile_map[missing] = 0;
    let mut cache = TileCache::new(vec![d], 4096);
    let used = used_cells(&[(5, 5), (6, 6)]);
    let (status, uploads) = cache.populate_tiles(&used, 0, 4096);
    assert_eq!(status, UploadStatus::Uploads);
    assert_eq!(uploads.len(), 1);
    let nf = cache.atlas.not_found();
    assert_eq!(nf, TileOffset { x: 4096, y: 0 });
    assert_eq!(cache.tiles[missing], nf);

    let (status, uploads) = cache.populate_tiles(&vec![0u32; 64800], 0, 4096);
    assert_eq!(status, UploadStatus::NoUploads);
    assert!(uploads.is_empty());
    assert_eq!(cache.tiles[missing], nf);
    assert_eq!(cache.tiles[map_lat_lon_to_index(6, 6)], unloaded(&cache));
    assert_eq!(cache.atlas.collected_tiles.len(), 1);
}

#[test]
fn resident_tiles_stay_without_uploads() {
    let mut cache = TileCache::new(vec![full_dataset(4)], 4096);
    let used = used_cells(&[(10, 20), (-10, -20)]);
    let (_, first) = cache.populate_tiles(&used, 0, 4096);
    let before = cache.tiles.clone();
    let (status, uploads) = cache.populate_tiles(&used, 0, 4096);
    assert_eq!(status, UploadStatus::NoUploads);
    assert!(uploads.is_empty());
    assert_eq!(cache.tiles, before);
    assert_eq!(first.len(), 2);
}

#[test]
fn slots_fill_rows_in_order() {
    let mut cache = TileCache::new(vec![full_dataset(2048)], 16384);
    let used = used_cells(&[(0, 0), (0, 1), (1, 0)]);
    let (_, uploads) = cache.populate_tiles(&used, 0, 16384);
    let mut origins: Vec<(u32, u32)> = uploads.iter().map(|u| (u.origin.x, u.origin.y)).collect();
    origins.sort();
    assert_eq!(origins, vec![(0, 0), (0, 2048), (2048, 0)]);
}

#[test]
fn tile_map_matches_tiles() {
    let mut cache = TileCache::new(vec![full_dataset(4)], 4096);
    let used = used_cells(&[(0, 0), (3, -7)]);
    cache.populate_tiles(&used, 0, 4096);
    let bytes = cache.tile_map_bytes();
    assert_eq!(bytes.len(), 64800 * 8);
    for (i, t) in cache.tiles.iter().enumerate() {
        assert_eq!(&bytes[8 * i..8 * i + 4], &t.x.to_le_bytes());
        assert_eq!(&bytes[8 * i + 4..8 * i + 8], &t.y.to_le_bytes());
    }
    let i = map_lat_lon_to_index(3, -7);
    assert!(cache.tiles[i] != unloaded(&cache));
}

#[test]
fn release_returns_slot() {
    let mut cache = TileCache::new(vec![full_dataset(4)], 4096);
    let used = used_cells(&[(0, 0)]);
    let (_, uploads) = cache.populate_tiles(&used, 0, 4096);
    let i = uploads[0].index;
    cache.release(i);
    assert_eq!(cache.tiles[i], unloaded(&cache));
    assert_eq!(cache.atlas.collected_tiles, vec![uploads[0].origin]);
}

#[test]
fn slots_never_shared_over_frames() {
    let mut cache = TileCache::new(vec![full_dataset(1024)], 8192);
    let cells: Vec<(i16, i16)> = (0..40).map(|k| ((k % 13) as i16 - 6, (k * 7 % 50) as i16 - 25)).collect();
    for frame in 0..12usize {
        let chosen: Vec<(i16, i16)> =
            cells.iter().enumerate().filter(|(k, _)| (k * 5 + frame * 3) % 4 != 0).map(|(_, c)| *c).collect();
        cache.populate_tiles(&used_cells(&chosen), 0, 8192);
        let u = cache.atlas.unloaded();
        let nf = cache.atlas.not_found();
        let mut held: Vec<TileOffset> = cache.tiles.iter().copied().filter(|&t| t != u && t != nf).collect();
        held.extend(cache.atlas.collected_tiles.iter().copied());
        let mut keys: Vec<(u32, u32)> = held.iter().map(|t| (t.x, t.y)).collect();
        keys.sort();
        let n = keys.len();
        keys.dedup();
        assert_eq!(keys.len(), n);
    }
}

#[test]
fn feedback_reads_little_endian_words() {
    let bytes = [1u8, 0, 0, 0, 0, 1, 0, 0, 255, 255, 255, 255, 7];
    assert_eq!(feedback_from_bytes(&bytes), vec![1, 256, u32::MAX]);
    assert!(feedback_from_bytes(&[]).is_empty());
}

#[test]
fn collection_only_looks_past_the_waiting_cell() {
    let mut cache = TileCache::new(vec![full_dataset(2048)], 16384);
    let first = [(0i16, 0i16), (0, 1), (1, 0), (1, 1)];
    cache.populate_tiles(&used_cells(&first), 0, 16384);
    // The new cell comes first in the column walk but after the freeable
    // cells in index order, so collection finds nothing and the atlas grows.
    let (status, _) = cache.populate_tiles(&used_cells(&[(0, 0), (2, -100)]), 0, 16384);
    assert_eq!(status, UploadStatus::Resized);
}
