use rgba_engine::base::{mask_is_valid, mask_pixel_count, pixel_byte_len, positive_area};
use rgba_engine::fill::colors_match;
use rgba_engine::BufferError;
use rgba_engine::RgbaBuffer;

#[test]
fn create_zero_filled() {
    let b = RgbaBuffer::new(3, 2);
    assert_eq!(b.width(), 3);
    assert_eq!(b.height(), 2);
    assert_eq!(b.len(), 3 * 2 * 4);
    assert!(b.data.iter().all(|&v| v == 0));
}

#[test]
fn create_empty() {
    let b = RgbaBuffer::new(0, 5);
    assert_eq!(b.len(), 0);
    assert!(b.is_empty());
}

#[test]
fn helpers() {
    assert_eq!(pixel_byte_len(2, 3), 24);
    assert_eq!(mask_pixel_count(4, 4), 16);
    assert!(mask_is_valid(2, 2, &[1, 0, 0, 1]));
    assert!(!mask_is_valid(3, 2, &[1, 0, 0, 1]));
    assert!(positive_area(1, 1));
    assert!(!positive_area(0, 1));
    assert!(!positive_area(3, -1));
}

#[test]
fn from_raw_checks_length() {
    let ok = RgbaBuffer::from_raw(1, 1, vec![1, 2, 3, 4]);
    assert!(ok.is_ok());
    let bad = RgbaBuffer::from_raw(2, 1, vec![1, 2, 3, 4]);
    assert_eq!(bad.err(), Some(BufferError::SizeMismatch));
}

#[test]
fn get_set_bounds_checked() {
    let mut b = RgbaBuffer::new(2, 2);
    assert!(b.set(1, 0, 10, 20, 30, 40));
    assert_eq!(b.get(1, 0), [10, 20, 30, 40]);
    // setting the same value again reports no change
    assert!(!b.set(1, 0, 10, 20, 30, 40));
    // out of bounds reads transparent black, writes are no-ops
    assert_eq!(b.get(5, 5), [0, 0, 0, 0]);
    assert!(!b.set(2, 0, 1, 1, 1, 1));
    assert_eq!(b.get(0, 0), [0, 0, 0, 0]);
}

#[test]
fn index_get_set() {
    let mut b = RgbaBuffer::new(2, 1);
    assert!(b.index_set(4, 9, 8, 7, 6));
    assert_eq!(b.index_get(4), [9, 8, 7, 6]);
    assert_eq!(b.index_get(3), [0, 9, 8, 7]);
    assert_eq!(b.index_get(5), [0, 0, 0, 0]);
    assert!(!b.index_set(5, 1, 1, 1, 1));
    assert_eq!(b.index_get(100), [0, 0, 0, 0]);
}

#[test]
fn overwrite_and_import() {
    let mut b = RgbaBuffer::new(1, 1);
    assert!(b.overwrite_with(vec![5; 8], 2, 1));
    assert_eq!(b.width(), 2);
    assert!(!b.overwrite_with(vec![5; 7], 2, 1));
    assert_eq!(b.width(), 2);
    assert!(b.import_raw(&[7; 4], 1, 1));
    assert_eq!(b.get(0, 0), [7, 7, 7, 7]);
    assert!(!b.import_raw(&[7; 5], 1, 1));
}

#[test]
fn clone_copies_bytes() {
    let mut b = RgbaBuffer::new(2, 1);
    b.set(0, 0, 1, 2, 3, 4);
    let c = b.slice();
    assert_eq!(c.get(0, 0), [1, 2, 3, 4]);
    assert_eq!(c.width(), 2);
    assert_eq!(c.height(), 1);
}

#[test]
fn colors_match_threshold_boundary() {
    let a = [0, 0, 0, 255];
    assert!(colors_match(&a, &[10, 0, 0, 255], 10));
    assert!(!colors_match(&a, &[11, 0, 0, 255], 10));
    // exact mode compares alpha too
    assert!(!colors_match(&[1, 2, 3, 4], &[1, 2, 3, 5], 0));
    assert!(colors_match(&[1, 2, 3, 4], &[1, 2, 3, 4], 0));
    // threshold mode ignores alpha
    assert!(colors_match(&[1, 2, 3, 0], &[1, 2, 3, 255], 1));
}

#[test]
fn fill_all() {
    let mut b = RgbaBuffer::new(2, 2);
    assert!(b.fill_all_codes(7));
    assert!(b.data.iter().all(|&v| v == 7));
    assert!(b.fill_all_pixels(1, 2, 3, 4));
    for p in 0..4 {
        assert_eq!(b.index_get(p * 4), [1, 2, 3, 4]);
    }
}

#[test]
fn fill_mask_area_selects_pixels() {
    let mut b = RgbaBuffer::new(2, 2);
    let mask = [1u8, 0, 0, 1];
    assert!(b.fill_mask_area(&mask, 9, 9, 9, 9));
    assert_eq!(b.get(0, 0), [9, 9, 9, 9]);
    assert_eq!(b.get(1, 0), [0, 0, 0, 0]);
    assert_eq!(b.get(0, 1), [0, 0, 0, 0]);
    assert_eq!(b.get(1, 1), [9, 9, 9, 9]);
}
