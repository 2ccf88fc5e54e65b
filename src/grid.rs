//! The one-degree geographic grid and its linear cell index.

use vstd::prelude::*;

verus! {

/// Number of one-degree rows (latitudes).
pub const LAT_CELLS: usize = 180;

/// Number of one-degree columns (longitudes).
pub const LON_CELLS: usize = 360;

/// Number of cells covering the Earth.
pub const CELL_COUNT: usize = 64800;

/// A cell is named by the integer latitude and longitude of its south-west corner.
pub open spec fn valid_lat_lon(lat: int, lon: int) -> bool {
    -90 <= lat < 90 && -180 <= lon < 180
}

/// Linear index of a cell: rows of 360 cells, from the south pole up.
pub open spec fn index_of(lat: int, lon: int) -> int {
    (lat + 90) * 360 + (lon + 180)
}

pub open spec fn lat_of(index: int) -> int {
    index / 360 - 90
}

pub open spec fn lon_of(index: int) -> int {
    index % 360 - 180
}

pub fn map_lat_lon_to_index(lat: i16, lon: i16) -> (r: usize)
    requires
        valid_lat_lon(lat as int, lon as int),
    ensures
        r as int == index_of(lat as int, lon as int),
        r < CELL_COUNT,
{
    let row = (lat + 90) as usize;
    let col = (lon + 180) as usize;
    row * LON_CELLS + col
}

pub fn map_index_to_lat_lon(index: usize) -> (r: (i16, i16))
    requires
        index < CELL_COUNT,
    ensures
        r.0 as int == lat_of(index as int),
        r.1 as int == lon_of(index as int),
        valid_lat_lon(r.0 as int, r.1 as int),
{
    let lat = (index / LON_CELLS) as i16 - 90;
    let lon = (index % LON_CELLS) as i16 - 180;
    (lat, lon)
}

/// The cell index is a bijection between valid (latitude, longitude) pairs
/// and the integers in `[0, 64800)`: each side inverts the other.
pub proof fn lemma_index_bijection(lat: int, lon: int, index: int)
    ensures
        valid_lat_lon(lat, lon) ==> {
            &&& 0 <= index_of(lat, lon) < CELL_COUNT
            &&& lat_of(index_of(lat, lon)) == lat
            &&& lon_of(index_of(lat, lon)) == lon
        },
        0 <= index < CELL_COUNT ==> {
            &&& valid_lat_lon(lat_of(index), lon_of(index))
            &&& index_of(lat_of(index), lon_of(index)) == index
        },
{
    if valid_lat_lon(lat, lon) {
        let row = lat + 90;
        let col = lon + 180;
        assert(0 <= row * 360 + col < 64800) by (nonlinear_arith)
            requires 0 <= row < 180, 0 <= col < 360;
        vstd::arithmetic::div_mod::lemma_fundamental_div_mod_converse(row * 360 + col, 360, row, col);
    }
    if 0 <= index < CELL_COUNT {
        assert(0 <= index / 360 < 180) by (nonlinear_arith)
            requires 0 <= index < 64800;
        vstd::arithmetic::div_mod::lemma_fundamental_div_mod(index, 360);
    }
}

} // verus!
