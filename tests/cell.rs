use terrain::cell::{crop_interior, heights_for_store, is_all_water, quantize_heights};
use terrain::dataset::{pack_water, unmap_heights};

#[test]
fn ocean_cell_is_left_out() {
    let heights = vec![-3i16; 16];
    let water = vec![1u8; 16];
    assert!(is_all_water(&water));
    assert!(heights_for_store(&heights, &water).is_none());
}

#[test]
fn land_cell_is_raised_by_500() {
    let heights = vec![-500i16, 0, 1, 8848];
    let water = vec![1u8, 0, 1, 1];
    assert_eq!(heights_for_store(&heights, &water).unwrap(), vec![0u16, 500, 501, 9348]);
}

#[test]
fn empty_cell_counts_as_water() {
    assert!(heights_for_store(&[], &[]).is_none());
}

#[test]
fn raised_heights_wrap() {
    let heights = vec![-501i16, i16::MAX];
    let water = vec![0u8, 0];
    assert_eq!(heights_for_store(&heights, &water).unwrap(), vec![65535u16, 33267]);
}

#[test]
fn quantize_rounds_half_up() {
    assert_eq!(quantize_heights(&[524, 525, 0, 24, 25, 65535], 50), vec![10, 11, 0, 0, 1, 1311]);
    assert_eq!(quantize_heights(&[7, 65535], 1), vec![7, 65535]);
}

#[test]
fn quantize_error_is_at_most_half_a_step() {
    for step in [1u16, 2, 7, 50] {
        let heights: Vec<u16> = (0..2000).collect();
        let back = unmap_heights(&quantize_heights(&heights, step), step);
        for (h, b) in heights.iter().zip(back.iter()) {
            assert!(2 * (*b as i32 - *h as i32).abs() <= step as i32);
        }
    }
}

#[test]
fn unmap_wraps() {
    assert_eq!(unmap_heights(&[2, 32768], 3), vec![6, 32768]);
}

#[test]
fn crop_takes_interior() {
    let grid: Vec<i16> = (0..16).collect();
    assert_eq!(crop_interior(&grid, 2), vec![5, 6, 9, 10]);
    let one: Vec<u8> = (0..9).collect();
    assert_eq!(crop_interior(&one, 1), vec![4]);
}

#[test]
fn compact_form_sets_bit_15() {
    let mut h = vec![1u16, 2, 3];
    pack_water(&mut h, &[1, 0, 1]);
    assert_eq!(h, vec![0x8001, 2, 0x8003]);
}
