use wallfacer::pixel_buffer::PixelBuffer;
use wallfacer::scanline::{fill_between_pairs, sort_crossings};

#[test]
fn crossings_are_sorted_keeping_duplicates() {
    let mut v = vec![5, 1, 3, 1, -7, 12];
    sort_crossings(&mut v);
    assert_eq!(v, vec![-7, 1, 1, 3, 5, 12]);
    let mut e: Vec<i32> = Vec::new();
    sort_crossings(&mut e);
    assert!(e.is_empty());
}

#[test]
fn spans_between_pairs_are_filled() {
    let mut b = PixelBuffer::with_size(10, 3);
    fill_between_pairs(&mut b, &[1, 3, 6, 8, 9], 1, 9, 8, 7);
    let row: Vec<bool> = (0..10).map(|x| b.get_pixel(x, 1) == Some((9, 8, 7))).collect();
    assert_eq!(row, vec![false, true, true, true, false, false, true, true, true, false]);
    assert!((0..10).all(|x| b.get_pixel(x, 0) == Some((0, 0, 0))));
    assert!((0..10).all(|x| b.get_pixel(x, 2) == Some((0, 0, 0))));
}

#[test]
fn spans_are_clipped() {
    let mut b = PixelBuffer::with_size(4, 1);
    fill_between_pairs(&mut b, &[-5, 1, 3, 100], 0, 1, 1, 1);
    let row: Vec<bool> = (0..4).map(|x| b.get_pixel(x, 0) == Some((1, 1, 1))).collect();
    assert_eq!(row, vec![true, true, false, true]);
}
