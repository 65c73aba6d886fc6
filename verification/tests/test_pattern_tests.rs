use wallfacer::pixel_buffer::PixelBuffer;
use wallfacer::test_pattern::{darken_scanlines, render_color_bars};

fn px(b: &PixelBuffer, x: i32, y: i32) -> (u8, u8, u8, u8) {
    b.get_pixel_rgba(x, y).unwrap()
}

#[test]
fn color_bars_layout() {
    let mut b = PixelBuffer::with_size(70, 48);
    render_color_bars(&mut b);
    // bars are 10 wide; top bars 32 high, mini bars 4 high, bottom from row 36
    assert_eq!(px(&b, 5, 5), (191, 191, 191, 255));
    assert_eq!(px(&b, 15, 5), (191, 191, 0, 255));
    assert_eq!(px(&b, 25, 31), (0, 191, 191, 255));
    assert_eq!(px(&b, 69, 0), (0, 0, 191, 255));
    assert_eq!(px(&b, 5, 32), (0, 0, 191, 255));
    assert_eq!(px(&b, 15, 33), (0, 0, 0, 255));
    assert_eq!(px(&b, 65, 35), (191, 191, 191, 255));
    assert_eq!(px(&b, 5, 40), (0, 68, 130, 255));
    assert_eq!(px(&b, 12, 47), (255, 255, 255, 255));
    assert_eq!(px(&b, 25, 40), (67, 0, 130, 255));
    assert_eq!(px(&b, 40, 40), (0, 0, 0, 255));
    assert_eq!(px(&b, 61, 40), (0, 0, 0, 255));
    assert_eq!(px(&b, 64, 40), (0, 0, 0, 255));
    assert_eq!(px(&b, 66, 40), (10, 10, 10, 255));
    assert_eq!(px(&b, 69, 47), (10, 10, 10, 255));
}

#[test]
fn color_bars_cover_every_pixel() {
    let mut b = PixelBuffer::with_size(71, 50);
    render_color_bars(&mut b);
    for y in 0..50 {
        for x in 0..71 {
            assert_eq!(px(&b, x, y).3, 255, "pixel {} {}", x, y);
        }
    }
}

#[test]
fn scanlines_darken_three_of_six_rows() {
    let mut b = PixelBuffer::with_size(3, 12);
    b.clear_rgba(191, 100, 255, 200);
    darken_scanlines(&mut b, 0);
    for y in 0..12 {
        let expect = if y % 6 < 3 { (156, 82, 209, 200) } else { (191, 100, 255, 200) };
        assert_eq!(px(&b, 1, y), expect, "row {}", y);
    }
}

#[test]
fn scanlines_follow_the_offset() {
    let mut b = PixelBuffer::with_size(2, 8);
    b.clear_rgba(100, 100, 100, 255);
    darken_scanlines(&mut b, 4);
    let dark: Vec<bool> = (0..8).map(|y| px(&b, 0, y).0 == 82).collect();
    assert_eq!(dark, vec![false, false, true, true, true, false, false, false]);
}
