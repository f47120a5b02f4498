use simple_geyser::layout::{locate, COUNTER_SIZE, HEAD_OFFSET, TAIL_OFFSET};
use simple_geyser::{compute_size, LayoutError, HEADER_SIZE, RECORD_SIZE};

#[test]
fn header_is_two_counters_of_eight_bytes() {
    assert_eq!(HEAD_OFFSET, 0);
    assert_eq!(TAIL_OFFSET, 8);
    assert_eq!(COUNTER_SIZE, 8);
    assert_eq!(HEADER_SIZE, 16);
}

#[test]
fn size_is_header_plus_slots() {
    assert_eq!(compute_size(4, 42), Ok(184));
    assert_eq!(compute_size(1, 1), Ok(17));
    assert_eq!(compute_size(1, RECORD_SIZE), Ok(58));
    assert_eq!(compute_size(1024, RECORD_SIZE), Ok(16 + 1024 * 42));
    assert_eq!(compute_size(3, 100), Ok(316));
}

#[test]
fn zero_capacity_is_turned_down() {
    assert_eq!(compute_size(0, 42), Err(LayoutError::ZeroCapacity));
    assert_eq!(compute_size(0, 0), Err(LayoutError::ZeroCapacity));
}

#[test]
fn zero_record_size_is_turned_down() {
    assert_eq!(compute_size(4, 0), Err(LayoutError::ZeroRecordSize));
    assert_eq!(compute_size(usize::MAX, 0), Err(LayoutError::ZeroRecordSize));
}

#[test]
fn size_beyond_usize_is_turned_down() {
    assert_eq!(compute_size(usize::MAX, 2), Err(LayoutError::TooLarge));
    assert_eq!(compute_size(usize::MAX, 1), Err(LayoutError::TooLarge));
    assert_eq!(compute_size(usize::MAX - 15, 1), Err(LayoutError::TooLarge));
    assert_eq!(compute_size(usize::MAX / 42 + 1, 42), Err(LayoutError::TooLarge));
}

#[test]
fn largest_size_that_fits_is_accepted() {
    assert_eq!(compute_size(usize::MAX - 16, 1), Ok(usize::MAX));
    assert_eq!(compute_size(1, usize::MAX - 16), Ok(usize::MAX));
}

#[test]
fn locate_maps_an_index_to_its_slot() {
    assert_eq!(locate(0, 4), (0, 16));
    assert_eq!(locate(1, 4), (1, 58));
    assert_eq!(locate(3, 4), (3, 142));
    assert_eq!(locate(4, 4), (0, 16));
    assert_eq!(locate(5, 4), (1, 58));
    assert_eq!(locate(u64::MAX, 1), (0, 16));
    assert_eq!(locate(10, 3), (1, 16 + 42));
}
