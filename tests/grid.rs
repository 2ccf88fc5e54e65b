use terrain::grid::{map_index_to_lat_lon, map_lat_lon_to_index, CELL_COUNT};

#[test]
fn index_corners() {
    assert_eq!(map_lat_lon_to_index(-90, -180), 0);
    assert_eq!(map_lat_lon_to_index(89, 179), 64799);
    assert_eq!(map_lat_lon_to_index(0, 0), 90 * 360 + 180);
    assert_eq!(map_lat_lon_to_index(-89, -180), 360);
}

#[test]
fn index_round_trip_all_cells() {
    for index in 0..CELL_COUNT {
        let (lat, lon) = map_index_to_lat_lon(index);
        assert!((-90..90).contains(&lat));
        assert!((-180..180).contains(&lon));
        assert_eq!(map_lat_lon_to_index(lat, lon), index);
    }
    for lat in -90i16..90 {
        for lon in -180i16..180 {
            assert_eq!(map_index_to_lat_lon(map_lat_lon_to_index(lat, lon)), (lat, lon));
        }
    }
}
