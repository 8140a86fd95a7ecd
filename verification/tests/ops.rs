use rgba_engine::RgbaBuffer;

fn solid(w: u32, h: u32, c: [u8; 4]) -> RgbaBuffer {
    let mut b = RgbaBuffer::new(w, h);
    b.fill_all_pixels(c[0], c[1], c[2], c[3]);
    b
}

#[test]
fn read_rect_clips() {
    let mut b = RgbaBuffer::new(2, 2);
    b.set(0, 0, 1, 1, 1, 1);
    b.set(1, 1, 2, 2, 2, 2);
    // rectangle hanging off the top-left corner
    let r = b.read_rect(-1, -1, 2, 2);
    assert_eq!(r.len(), 16);
    assert_eq!(&r[0..12], &[0u8; 12]);
    assert_eq!(&r[12..16], &[1, 1, 1, 1]);
    // degenerate rectangle
    assert!(b.read_rect(0, 0, 0, 2).is_empty());
}

#[test]
fn write_rect_clips_and_checks() {
    let mut b = RgbaBuffer::new(2, 2);
    let patch = [5u8; 16];
    // 2x2 patch written at (1, 1): only pixel (1, 1) is covered
    assert!(b.write_rect(1, 1, 2, 2, &patch));
    assert_eq!(b.get(1, 1), [5, 5, 5, 5]);
    assert_eq!(b.get(0, 0), [0, 0, 0, 0]);
    assert_eq!(b.get(1, 0), [0, 0, 0, 0]);
    // wrong byte count fails without writing
    assert!(!b.write_rect(0, 0, 2, 2, &[1u8; 15]));
    assert_eq!(b.get(0, 0), [0, 0, 0, 0]);
}

#[test]
fn write_pixels_parallel_arrays() {
    let mut b = RgbaBuffer::new(2, 2);
    let coords = [0u32, 0, 1, 1, 9, 9];
    let colors = [1u8, 1, 1, 1, 2, 2, 2, 2, 3, 3, 3, 3];
    assert!(b.write_pixels(&coords, &colors));
    assert_eq!(b.get(0, 0), [1, 1, 1, 1]);
    assert_eq!(b.get(1, 1), [2, 2, 2, 2]);
    // mismatched pixel counts fail
    assert!(!b.write_pixels(&coords[0..2], &colors));
}

#[test]
fn slice_and_crop_reconstruct() {
    let mut b = RgbaBuffer::new(2, 2);
    b.set(0, 0, 1, 0, 0, 255);
    b.set(1, 0, 2, 0, 0, 255);
    b.set(0, 1, 3, 0, 0, 255);
    b.set(1, 1, 4, 0, 0, 255);
    let mask = [1u8, 0, 0, 1];
    let sl = b.slice_with_mask(&mask, 2, 2, 0, 0);
    let cr = b.crop_with_mask(&mask, 2, 2, 0, 0);
    assert_eq!(sl.len(), 16);
    assert_eq!(cr.len(), 16);
    // covered pixels live in the slice and are erased in the crop
    assert_eq!(&sl[0..4], &[1, 0, 0, 255]);
    assert_eq!(&cr[0..4], &[0, 0, 0, 0]);
    assert_eq!(&sl[12..16], &[4, 0, 0, 255]);
    assert_eq!(&cr[12..16], &[0, 0, 0, 0]);
    // uncovered pixels live in the crop and are blank in the slice
    assert_eq!(&sl[4..8], &[0, 0, 0, 0]);
    assert_eq!(&cr[4..8], &[2, 0, 0, 255]);
    // union reconstructs the original at every pixel
    for i in 0..16 {
        assert_eq!(sl[i] | cr[i], b.data[i]);
    }
}

#[test]
fn slice_with_mask_offset() {
    let mut b = solid(3, 1, [8, 8, 8, 8]);
    b.set(2, 0, 9, 9, 9, 9);
    let mask = [1u8];
    let sl = b.slice_with_mask(&mask, 1, 1, 2, 0);
    assert_eq!(sl, vec![9, 9, 9, 9]);
    // selection outside the buffer reads transparent black
    let off = b.slice_with_mask(&mask, 1, 1, 5, 0);
    assert_eq!(off, vec![0, 0, 0, 0]);
}

#[test]
fn resize_grow_then_shrink_restores() {
    let mut b = RgbaBuffer::new(2, 2);
    b.set(0, 0, 1, 2, 3, 4);
    b.set(1, 1, 5, 6, 7, 8);
    let original = b.data.clone();
    b.resize(4, 3);
    assert_eq!(b.width(), 4);
    assert_eq!(b.height(), 3);
    // newly exposed pixels are transparent black
    assert_eq!(b.get(3, 2), [0, 0, 0, 0]);
    assert_eq!(b.get(2, 0), [0, 0, 0, 0]);
    assert_eq!(b.get(0, 0), [1, 2, 3, 4]);
    b.resize(2, 2);
    assert_eq!(b.width(), 2);
    assert_eq!(b.height(), 2);
    assert_eq!(b.data, original);
}

#[test]
fn resize_with_origins_translates() {
    let mut b = RgbaBuffer::new(2, 1);
    b.set(0, 0, 1, 1, 1, 1);
    // move old pixel (0,0) to new pixel (1,0)
    b.resize_with_origins(2, 1, 0, 0, 1, 0);
    assert_eq!(b.get(0, 0), [0, 0, 0, 0]);
    assert_eq!(b.get(1, 0), [1, 1, 1, 1]);
}

#[test]
fn resize_zero_is_noop() {
    let mut b = solid(2, 2, [3, 3, 3, 3]);
    let before = b.data.clone();
    b.resize(0, 5);
    assert_eq!(b.width(), 2);
    assert_eq!(b.data, before);
}

#[test]
fn flood_fill_idempotent_on_filled_region() {
    let mut b = solid(2, 2, [9, 9, 9, 9]);
    let before = b.data.clone();
    // region already equals the fill color: no-op, reported false
    assert!(!b.flood_fill(0, 0, 9, 9, 9, 9, 0));
    assert_eq!(b.data, before);
    // out-of-bounds start: no-op
    assert!(!b.flood_fill(5, 5, 1, 1, 1, 1, 0));
    assert_eq!(b.data, before);
}

#[test]
fn flood_fill_respects_barrier() {
    // 3x3: middle column is a barrier separating two same-colored regions
    let mut b = RgbaBuffer::new(3, 3);
    for y in 0..3 {
        b.set(1, y, 200, 200, 200, 255);
    }
    assert!(b.flood_fill(0, 0, 7, 7, 7, 255, 0));
    for y in 0..3 {
        // left region filled
        assert_eq!(b.get(0, y), [7, 7, 7, 255]);
        // barrier untouched
        assert_eq!(b.get(1, y), [200, 200, 200, 255]);
        // right region untouched
        assert_eq!(b.get(2, y), [0, 0, 0, 0]);
    }
}

#[test]
fn flood_fill_threshold_boundary() {
    // gradient from (0,0,0,255) to (10,0,0,255): diff 10 spreads at
    // threshold 10
    let mut b = RgbaBuffer::from_raw(2, 1, vec![0, 0, 0, 255, 10, 0, 0, 255]).unwrap();
    assert!(b.flood_fill(0, 0, 50, 50, 50, 255, 10));
    assert_eq!(b.get(0, 0), [50, 50, 50, 255]);
    assert_eq!(b.get(1, 0), [50, 50, 50, 255]);
    // diff 11 stops the spread
    let mut c = RgbaBuffer::from_raw(2, 1, vec![0, 0, 0, 255, 11, 0, 0, 255]).unwrap();
    assert!(c.flood_fill(0, 0, 50, 50, 50, 255, 10));
    assert_eq!(c.get(0, 0), [50, 50, 50, 255]);
    assert_eq!(c.get(1, 0), [11, 0, 0, 255]);
}

#[test]
fn flood_fill_with_mask_modes() {
    let mask = [1u8, 0, 1, 0];
    let mut b = RgbaBuffer::new(2, 2);
    assert!(b.flood_fill_with_mask(0, 0, 5, 5, 5, 5, 0, &mask, "inside"));
    assert_eq!(b.get(0, 0), [5, 5, 5, 5]);
    assert_eq!(b.get(1, 0), [0, 0, 0, 0]);
    assert_eq!(b.get(0, 1), [5, 5, 5, 5]);
    let mut c = RgbaBuffer::new(2, 2);
    assert!(c.flood_fill_with_mask(1, 0, 5, 5, 5, 5, 0, &mask, "outside"));
    assert_eq!(c.get(1, 0), [5, 5, 5, 5]);
    assert_eq!(c.get(0, 0), [0, 0, 0, 0]);
    assert_eq!(c.get(1, 1), [5, 5, 5, 5]);
    // an unrecognized mode is a hard failure that touches nothing
    let mut d = RgbaBuffer::new(2, 2);
    assert!(!d.flood_fill_with_mask(0, 0, 5, 5, 5, 5, 0, &mask, "within"));
    assert!(d.data.iter().all(|&v| v == 0));
}

#[test]
fn free_flood_fill_on_raw_buffer() {
    let mut data = vec![0u8; 4];
    assert!(rgba_engine::flood::scanline_flood_fill(&mut data, 1, 1, 0, 0, 1, 2, 3, 4, 0));
    assert_eq!(data, vec![1, 2, 3, 4]);
    let mut gated = vec![0u8; 4];
    assert!(!rgba_engine::flood::scanline_flood_fill_with_mask(
        &mut gated, 1, 1, 0, 0, 1, 2, 3, 4, 0, &[0], "inside"
    ));
    assert_eq!(gated, vec![0, 0, 0, 0]);
}

#[test]
fn free_fill_mask_area_ignores_out_of_range() {
    let mut data = vec![0u8; 8];
    // mask longer than the buffer: extra entries are ignored
    assert!(rgba_engine::fill::fill_mask_area(&mut data, &[1, 0, 1], 4, 4, 4, 4));
    assert_eq!(data, vec![4, 4, 4, 4, 0, 0, 0, 0]);
}
