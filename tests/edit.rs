use terrain::commands::{Edit, Generate};
use terrain::edit::{edit_tile, EditedTile};
use terrain::format::TileMetadata;

#[test]
fn same_size_tile_is_kept_as_is() {
    let h: Vec<u16> = (0..16).collect();
    let w = vec![1u8; 16];
    let s = vec![7u8; 16];
    match edit_tile(4, 4, &h, &w, &s) {
        EditedTile::Store(h2, w2, s2) => {
            assert_eq!(h2, h);
            assert_eq!(w2, w);
            assert_eq!(s2, s);
        },
        _ => panic!("tile should be kept"),
    }
}

#[test]
fn resampled_tile_has_new_size() {
    let h = vec![1000u16; 16];
    let mut w = vec![0u8; 16];
    w[0] = 1;
    let s = vec![200u8; 16];
    match edit_tile(4, 2, &h, &w, &s) {
        EditedTile::Store(h2, w2, s2) => {
            assert_eq!(h2.len(), 4);
            assert_eq!(w2.len(), 4);
            assert_eq!(s2.len(), 4);
            assert!(h2.iter().all(|&x| x == 1000));
            assert!(s2.iter().all(|&x| x == 200));
        },
        _ => panic!("tile should be stored"),
    }
}

#[test]
fn resampled_ocean_is_left_out() {
    let h = vec![0u16; 64];
    let w = vec![1u8; 64];
    let s = vec![0u8; 64];
    assert!(matches!(edit_tile(8, 4, &h, &w, &s), EditedTile::AllWater));
}

#[test]
fn command_metadata() {
    let g = Generate {
        input: "in.tif".to_string(),
        water: "water.tif".to_string(),
        output: "out.geo".to_string(),
        resolution: 1200,
        height_resolution: 1,
    };
    assert!(g.metadata() == TileMetadata { version: 8, resolution: 1200, height_resolution: 1 });
    let e = Edit { input: "a".to_string(), output: "b".to_string(), resolution: 1024, height_resolution: 50 };
    assert!(e.metadata() == TileMetadata { version: 8, resolution: 1024, height_resolution: 50 });
}

#[test]
fn empty_tiles_of_equal_size_are_kept() {
    assert!(matches!(edit_tile(0, 0, &[], &[], &[]), EditedTile::Store(_, _, _)));
}
